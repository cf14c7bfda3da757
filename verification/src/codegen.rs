//! Code generation: build, for each function of the lowered IR, the
//! exact sequence of back-end operations that emits it — entry block and
//! argument binding, per-statement emission, branch lowering, and the
//! synthesized array-initialization loop — together with the module-level
//! declarations. The sequence is replayed against the instruction
//! selection back end by the unverified replayer.
//!
//! Two facts are proved of every plan: every declared local slot has the
//! ABI width of its variable's representation, and every block the plan
//! creates is sealed exactly once.

use vstd::prelude::*;

verus! {

use crate::cg_types::RepType;
use crate::common::Cmp;
use crate::common::FloatBinOp;
use crate::common::IntBinOp;
use crate::ctx::Ctx;
use crate::ctx::VarId;
use crate::lower::fun::Atom;
use crate::lower::fun::Exit;
use crate::lower::fun::Fun;
use crate::lower::fun::Label;
use crate::lower::fun::Expr as E;
use crate::lower::fun::Stmt;
use crate::seq_ext::seq_ext;
use crate::type_check::Type;

broadcast use crate::seq_ext::lemma_seq_ext_trans, crate::seq_ext::lemma_seq_ext_push;

/// The ABI type of a slot or value: a 64-bit integer word or a 64-bit
/// float.
#[derive(Debug, Clone, Copy, PartialEq, Eq, Structural)]
pub enum AbiTy {
    I64,
    F64,
}

/// The ABI type of a representation.
pub open spec fn spec_rep_abi(r: RepType) -> AbiTy {
    match r {
        RepType::Word => AbiTy::I64,
        RepType::Float => AbiTy::F64,
    }
}

/// Translate a representation to its System V ABI type: words in 64-bit
/// integer registers, floats in 64-bit float registers.
pub fn rep_type_abi(ty: RepType) -> (r: AbiTy)
    ensures
        r == spec_rep_abi(ty),
{
    match ty {
        RepType::Word => AbiTy::I64,
        RepType::Float => AbiTy::F64,
    }
}

/// Signed integer condition codes of the back end.
#[derive(Debug, Clone, Copy, PartialEq, Eq, Structural)]
pub enum IntCond {
    Equal,
    NotEqual,
    SignedLessThan,
    SignedLessThanOrEqual,
    SignedGreaterThan,
    SignedGreaterThanOrEqual,
}

/// Ordered float condition codes of the back end.
#[derive(Debug, Clone, Copy, PartialEq, Eq, Structural)]
pub enum FloatCond {
    Equal,
    NotEqual,
    LessThan,
    LessThanOrEqual,
    GreaterThan,
    GreaterThanOrEqual,
}

/// The signed integer condition of a comparison.
pub open spec fn spec_word_cond(cond: Cmp) -> IntCond {
    match cond {
        Cmp::Equal => IntCond::Equal,
        Cmp::NotEqual => IntCond::NotEqual,
        Cmp::LessThan => IntCond::SignedLessThan,
        Cmp::LessThanOrEqual => IntCond::SignedLessThanOrEqual,
        Cmp::GreaterThan => IntCond::SignedGreaterThan,
        Cmp::GreaterThanOrEqual => IntCond::SignedGreaterThanOrEqual,
    }
}

/// The ordered float condition of a comparison.
pub open spec fn spec_float_cond(cond: Cmp) -> FloatCond {
    match cond {
        Cmp::Equal => FloatCond::Equal,
        Cmp::NotEqual => FloatCond::NotEqual,
        Cmp::LessThan => FloatCond::LessThan,
        Cmp::LessThanOrEqual => FloatCond::LessThanOrEqual,
        Cmp::GreaterThan => FloatCond::GreaterThan,
        Cmp::GreaterThanOrEqual => FloatCond::GreaterThanOrEqual,
    }
}

/// The signed integer condition of a comparison.
pub fn word_cond(cond: Cmp) -> (r: IntCond)
    ensures
        r == spec_word_cond(cond),
        cond == Cmp::Equal ==> r == IntCond::Equal,
        cond == Cmp::NotEqual ==> r == IntCond::NotEqual,
        cond == Cmp::LessThan ==> r == IntCond::SignedLessThan,
        cond == Cmp::LessThanOrEqual ==> r == IntCond::SignedLessThanOrEqual,
        cond == Cmp::GreaterThan ==> r == IntCond::SignedGreaterThan,
        cond == Cmp::GreaterThanOrEqual ==> r == IntCond::SignedGreaterThanOrEqual,
{
    match cond {
        Cmp::Equal => IntCond::Equal,
        Cmp::NotEqual => IntCond::NotEqual,
        Cmp::LessThan => IntCond::SignedLessThan,
        Cmp::LessThanOrEqual => IntCond::SignedLessThanOrEqual,
        Cmp::GreaterThan => IntCond::SignedGreaterThan,
        Cmp::GreaterThanOrEqual => IntCond::SignedGreaterThanOrEqual,
    }
}

/// The ordered float condition of a comparison.
pub fn float_cond(cond: Cmp) -> (r: FloatCond)
    ensures
        r == spec_float_cond(cond),
        cond == Cmp::Equal ==> r == FloatCond::Equal,
        cond == Cmp::NotEqual ==> r == FloatCond::NotEqual,
        cond == Cmp::LessThan ==> r == FloatCond::LessThan,
        cond == Cmp::LessThanOrEqual ==> r == FloatCond::LessThanOrEqual,
        cond == Cmp::GreaterThan ==> r == FloatCond::GreaterThan,
        cond == Cmp::GreaterThanOrEqual ==> r == FloatCond::GreaterThanOrEqual,
{
    match cond {
        Cmp::Equal => FloatCond::Equal,
        Cmp::NotEqual => FloatCond::NotEqual,
        Cmp::LessThan => FloatCond::LessThan,
        Cmp::LessThanOrEqual => FloatCond::LessThanOrEqual,
        Cmp::GreaterThan => FloatCond::GreaterThan,
        Cmp::GreaterThanOrEqual => FloatCond::GreaterThanOrEqual,
    }
}

/// One back-end operation of a function plan. An operation that
/// produces a value is identified by its index in the plan; operands
/// refer to producing operations by that index.
#[derive(Debug)]
pub enum Op {
    /// Switch emission to a block.
    SwitchToBlock(usize),
    /// Append the function's ABI parameters to the entry block.
    AppendFnParams(usize),
    /// Read one block parameter; produces a value.
    BlockParam { block: usize, index: usize },
    /// Declare that all predecessors of a block are known.
    SealBlock(usize),
    /// Declare a local slot with an ABI type.
    DeclareVar { slot: VarId, ty: AbiTy },
    /// Define a local slot.
    DefVar { slot: VarId, val: usize },
    /// Read a local slot; produces a value.
    UseVar { slot: VarId },
    /// Integer constant; produces a value.
    Iconst(i64),
    /// Float constant by bit pattern; produces a value.
    F64Const(u64),
    /// Integer arithmetic; produces a value.
    IntOp { op: IntBinOp, a: usize, b: usize },
    /// Float arithmetic; produces a value.
    FloatOp { op: FloatBinOp, a: usize, b: usize },
    /// Integer negate; produces a value.
    Ineg(usize),
    /// Float negate; produces a value.
    Fneg(usize),
    /// The address of a declared function; produces a value.
    FuncAddr { func: usize },
    /// The address of an imported data symbol; produces a value.
    DataAddr { data: usize },
    /// Call `malloc` with one argument; produces the pointer.
    CallMalloc { size: usize },
    /// Indirect call through a function value; produces the result.
    CallIndirect { params: Vec<AbiTy>, ret: AbiTy, callee: usize, args: Vec<usize> },
    /// Store a value at `addr + offset`.
    Store { val: usize, addr: usize, offset: i32 },
    /// Load a value of the given type from `addr + offset`; produces it.
    Load { ty: AbiTy, addr: usize, offset: i32 },
    /// Compare and branch on a signed integer condition; falls through
    /// with a jump to the else block.
    BrIcmp { cond: IntCond, a: usize, b: usize, then_block: usize, else_block: usize },
    /// Ordered float comparison; produces a boolean value.
    Fcmp { cond: FloatCond, a: usize, b: usize },
    /// Branch to `then_block` if the value is non-zero, else to
    /// `else_block`.
    Brnz { val: usize, then_block: usize, else_block: usize },
    /// Unconditional jump.
    Jump(usize),
    /// Return a value.
    Return(usize),
}

/// How many `SealBlock(b)` operations the plan holds.
pub open spec fn seal_count(ops: Seq<Op>, b: int) -> nat
    decreases ops,
{
    if ops.len() == 0 {
        0
    } else {
        seal_count(ops.drop_last(), b) + if ops.last() matches Op::SealBlock(x) && x == b {
            1nat
        } else {
            0nat
        }
    }
}

/// Every declared slot has the ABI width of its variable's
/// representation.
pub open spec fn p5_slot_widths(ops: Seq<Op>, vars: Seq<crate::ctx::Var>) -> bool {
    forall|i: int|
        0 <= i < ops.len() ==> ((#[trigger] ops[i]) matches Op::DeclareVar { slot, ty } ==> slot
            < vars.len() && ty == spec_rep_abi(vars[slot as int].rep))
}

/// Every block the plan creates is sealed exactly once.
pub open spec fn p6_sealed_once(ops: Seq<Op>, n_blocks: int) -> bool {
    forall|b: int| 0 <= b < n_blocks ==> seal_count(ops, b) == 1
}

/// The state of one function's plan under construction.
pub struct CgState {
    /// Operations emitted so far.
    pub ops: Vec<Op>,
    /// Number of blocks created so far.
    pub n_blocks: usize,
    /// Which blocks have been sealed.
    pub sealed: Vec<bool>,
    /// The block currently being filled.
    pub cur: usize,
}

/// Bookkeeping invariant: the seal flags mirror the seal operations of
/// the plan, and no plan operation seals an uncreated block.
pub open spec fn st_inv(st: CgState) -> bool {
    &&& st.sealed@.len() == st.n_blocks
    &&& forall|b: int|
        0 <= b < st.n_blocks ==> seal_count(st.ops@, b) == (if st.sealed@[b] {
            1nat
        } else {
            0nat
        })
    &&& forall|b: int| b >= st.n_blocks ==> seal_count(st.ops@, b) == 0
}

/// The unsealed blocks are exactly the current block and the label
/// blocks not yet walked.
pub open spec fn unsealed_shape(st: CgState, lo: int, hi: int) -> bool {
    forall|b: int|
        0 <= b < st.sealed@.len() ==> (#[trigger] st.sealed@[b] == !(b == st.cur || (lo <= b
            < hi)))
}

/// Pushing an operation keeps the slot-width property, provided a
/// declare is well typed.
proof fn lemma_p5_push(ops: Seq<Op>, op: Op, vars: Seq<crate::ctx::Var>)
    requires
        p5_slot_widths(ops, vars),
        op matches Op::DeclareVar { slot, ty } ==> slot < vars.len() && ty == spec_rep_abi(
            vars[slot as int].rep,
        ),
    ensures
        p5_slot_widths(ops.push(op), vars),
{
    assert forall|i: int|
        0 <= i < ops.push(op).len() implies ((#[trigger] ops.push(op)[i]) matches
        Op::DeclareVar { slot, ty } ==> slot < vars.len() && ty == spec_rep_abi(
        vars[slot as int].rep,
    )) by {
        if i < ops.len() {
            assert(ops.push(op)[i] == ops[i]);
        }
    }
}

/// The slot-width property survives growing the variable table.
proof fn lemma_p5_grow(ops: Seq<Op>, vars: Seq<crate::ctx::Var>, vars2: Seq<crate::ctx::Var>)
    requires
        p5_slot_widths(ops, vars),
        vars.len() <= vars2.len(),
        forall|k: int| 0 <= k < vars.len() ==> vars2[k] == #[trigger] vars[k],
    ensures
        p5_slot_widths(ops, vars2),
{
    assert forall|i: int|
        0 <= i < ops.len() implies ((#[trigger] ops[i]) matches Op::DeclareVar { slot, ty }
        ==> slot < vars2.len() && ty == spec_rep_abi(vars2[slot as int].rep)) by {
        match ops[i] {
            Op::DeclareVar { slot, ty } => {
                assert(vars2[slot as int] == vars[slot as int]);
            },
            _ => {},
        }
    }
}

/// Pushing a non-seal operation changes no seal count.
proof fn lemma_seal_count_push(ops: Seq<Op>, op: Op)
    requires
        !(op is SealBlock),
    ensures
        forall|b: int| seal_count(#[trigger] ops.push(op), b) == seal_count(ops, b),
{
    assert forall|b: int| seal_count(#[trigger] ops.push(op), b) == seal_count(ops, b) by {
        assert(ops.push(op).drop_last() =~= ops);
    }
}

/// Pushing a seal raises that block's count by one.
proof fn lemma_seal_count_push_seal(ops: Seq<Op>, x: usize)
    ensures
        seal_count(ops.push(Op::SealBlock(x)), x as int) == seal_count(ops, x as int) + 1,
        forall|b: int|
            b != x ==> seal_count(#[trigger] ops.push(Op::SealBlock(x)), b) == seal_count(ops, b),
{
    assert forall|b: int|
        b != x implies seal_count(#[trigger] ops.push(Op::SealBlock(x)), b) == seal_count(
        ops,
        b,
    ) by {
        assert(ops.push(Op::SealBlock(x)).drop_last() =~= ops);
    }
    assert(ops.push(Op::SealBlock(x)).drop_last() =~= ops);
}

/// Emit one non-seal operation; its index names its value.
fn emit(st: &mut CgState, op: Op, gvars: Ghost<Seq<crate::ctx::Var>>) -> (id: usize)
    requires
        st_inv(*old(st)),
        !(op is SealBlock),
        p5_slot_widths(old(st).ops@, gvars@),
        op matches Op::DeclareVar { slot, ty } ==> slot < gvars@.len() && ty == spec_rep_abi(
            gvars@[slot as int].rep,
        ),
    ensures
        st_inv(*final(st)),
        p5_slot_widths(final(st).ops@, gvars@),
        final(st).ops@ == old(st).ops@.push(op),
        final(st).n_blocks == old(st).n_blocks,
        final(st).sealed@ == old(st).sealed@,
        final(st).cur == old(st).cur,
        id == old(st).ops@.len(),
{
    let ghost ops0 = st.ops@;
    let id = st.ops.len();
    st.ops.push(op);
    proof {
        lemma_seal_count_push(ops0, op);
        lemma_p5_push(ops0, op, gvars@);
        assert(st.ops@ == ops0.push(op));
        assert forall|b: int| #[trigger] seal_count(st.ops@, b) == seal_count(ops0, b) by {
            assert(seal_count(st.ops@, b) == seal_count(ops0.push(op), b));
        }
    }
    id
}

/// Create a fresh, unsealed block.
fn create_block(st: &mut CgState) -> (b: usize)
    requires
        st_inv(*old(st)),
    ensures
        st_inv(*final(st)),
        b == old(st).n_blocks,
        final(st).n_blocks == old(st).n_blocks + 1,
        final(st).sealed@ == old(st).sealed@.push(false),
        final(st).ops@ == old(st).ops@,
        final(st).cur == old(st).cur,
{
    let b = st.sealed.len();
    st.sealed.push(false);
    st.n_blocks = st.sealed.len();
    b
}

/// Switch emission to a block.
fn switch_to_block(st: &mut CgState, b: usize, gvars: Ghost<Seq<crate::ctx::Var>>)
    requires
        st_inv(*old(st)),
        p5_slot_widths(old(st).ops@, gvars@),
    ensures
        st_inv(*final(st)),
        p5_slot_widths(final(st).ops@, gvars@),
        final(st).ops@ == old(st).ops@.push(Op::SwitchToBlock(b)),
        final(st).n_blocks == old(st).n_blocks,
        final(st).sealed@ == old(st).sealed@,
        final(st).cur == b,
{
    let ghost ops0 = st.ops@;
    st.ops.push(Op::SwitchToBlock(b));
    st.cur = b;
    proof {
        lemma_seal_count_push(ops0, Op::SwitchToBlock(b));
        lemma_p5_push(ops0, Op::SwitchToBlock(b), gvars@);
        assert(st.ops@ == ops0.push(Op::SwitchToBlock(b)));
        assert forall|b2: int| #[trigger] seal_count(st.ops@, b2) == seal_count(ops0, b2) by {
            assert(seal_count(st.ops@, b2) == seal_count(ops0.push(Op::SwitchToBlock(b)), b2));
        }
    }
}

/// Seal a block, exactly once.
fn seal_block(st: &mut CgState, b: usize, gvars: Ghost<Seq<crate::ctx::Var>>)
    requires
        st_inv(*old(st)),
        b < old(st).n_blocks,
        !old(st).sealed@[b as int],
        p5_slot_widths(old(st).ops@, gvars@),
    ensures
        st_inv(*final(st)),
        p5_slot_widths(final(st).ops@, gvars@),
        final(st).ops@ == old(st).ops@.push(Op::SealBlock(b)),
        final(st).n_blocks == old(st).n_blocks,
        final(st).sealed@ == old(st).sealed@.update(b as int, true),
        final(st).cur == old(st).cur,
{
    let ghost ops0 = st.ops@;
    st.ops.push(Op::SealBlock(b));
    st.sealed.set(b, true);
    proof {
        lemma_seal_count_push_seal(ops0, b);
        lemma_p5_push(ops0, Op::SealBlock(b), gvars@);
        assert(st.ops@ == ops0.push(Op::SealBlock(b)));
        assert forall|b2: int|
            b2 != b ==> #[trigger] seal_count(st.ops@, b2) == seal_count(ops0, b2) by {
            if b2 != b {
                assert(seal_count(st.ops@, b2) == seal_count(ops0.push(Op::SealBlock(b)), b2));
            }
        }
        assert(seal_count(st.ops@, b as int) == seal_count(ops0.push(Op::SealBlock(b)), b as int));
    }
}

/// The atom of an atomic expression.
pub open spec fn atom_of(e: E) -> Option<Atom> {
    match e {
        E::Atom(a) => Some(a),
        _ => None,
    }
}

/// The operation a use site emits for `v` under `env`: none for an
/// argument (its value is reused), an address materialization for a
/// function or data reference, a slot read otherwise.
pub open spec fn use_op(env: Seq<Option<VarVal>>, v: VarId) -> Option<Op> {
    if (v as int) < env.len() {
        match env[v as int] {
            Some(VarVal::Arg(_)) => None,
            Some(VarVal::FunRef(f)) => Some(Op::FuncAddr { func: f }),
            Some(VarVal::DataRef(d)) => Some(Op::DataAddr { data: d }),
            None => Some(Op::UseVar { slot: v }),
        }
    } else {
        Some(Op::UseVar { slot: v })
    }
}

/// The operations appended by one use of `v`.
pub open spec fn use_ops(env: Seq<Option<VarVal>>, v: VarId) -> Seq<Op> {
    match use_op(env, v) {
        Some(op) => seq![op],
        None => Seq::empty(),
    }
}

/// The value index a use of `v` yields when the stream has length
/// `base`: the bound argument value, or the index of the op just
/// appended.
pub open spec fn use_val(env: Seq<Option<VarVal>>, v: VarId, base: int) -> int {
    if (v as int) < env.len() {
        match env[v as int] {
            Some(VarVal::Arg(id)) => id as int,
            _ => base,
        }
    } else {
        base
    }
}

/// The operations appended by uses of each of `args` in order.
pub open spec fn uses_concat(env: Seq<Option<VarVal>>, args: Seq<VarId>) -> Seq<Op>
    decreases args,
{
    if args.len() == 0 {
        Seq::empty()
    } else {
        use_ops(env, args[0]) + uses_concat(env, args.subrange(1, args.len() as int))
    }
}

/// The ABI type a tuple element loads at, from the tuple variable's
/// source type: the element's representation, or a word when the
/// "tuple" is a closure-converted function value.
pub open spec fn tuple_load_abi(vars: Seq<crate::ctx::Var>, t: VarId, ix: int) -> Option<
    AbiTy,
> {
    if (t as int) < vars.len() {
        match vars[t as int].ty {
            Some(Type::Tuple(ts)) => if 0 <= ix < ts@.len() {
                Some(
                    spec_rep_abi(
                        crate::cg_types::spec_rep_type_of(crate::type_check::tyv(ts@[ix])),
                    ),
                )
            } else {
                None
            },
            Some(Type::Fun { args: _, ret: _ }) => Some(AbiTy::I64),
            _ => None,
        }
    } else {
        None
    }
}

/// The ABI type an array element loads at, from the array variable's
/// source type.
pub open spec fn array_load_abi(vars: Seq<crate::ctx::Var>, a: VarId) -> Option<AbiTy> {
    if (a as int) < vars.len() {
        match vars[a as int].ty {
            Some(Type::Array(el)) => Some(
                spec_rep_abi(crate::cg_types::spec_rep_type_of(crate::type_check::tyv(*el))),
            ),
            _ => None,
        }
    } else {
        None
    }
}

/// The operation sequence of an array allocation: allocate `len * 8`
/// bytes, then fill every slot with the element in a synthesized loop of
/// header, body and continuation blocks (spec of the emission at
/// `codegen_expr`). `base` is the stream length before it; `bu`/`iu` the
/// fresh bound and index slots; `lb`/`db`/`cb` the three fresh blocks;
/// `curb` the block being split.
#[verifier::opaque]
pub open spec fn array_alloc_ops(
    env: Seq<Option<VarVal>>,
    len: VarId,
    elem: VarId,
    base: int,
    bu: VarId,
    iu: VarId,
    lb: usize,
    db: usize,
    cb: usize,
    curb: usize,
) -> Seq<Op> {
    let u1 = use_ops(env, len);
    let lv = use_val(env, len, base);
    let b1 = base + u1.len();
    let arr = b1 + 2;
    let u2 = use_ops(env, elem);
    let ev = use_val(env, elem, b1 + 3);
    let b2 = b1 + 3 + u2.len();
    u1 + seq![
        Op::Iconst(8),
        (Op::IntOp { op: IntBinOp::Mul, a: lv as usize, b: b1 as usize }),
        (Op::CallMalloc { size: (b1 + 1) as usize }),
    ] + u2 + seq![
        (Op::DeclareVar { slot: bu, ty: AbiTy::I64 }),
        (Op::IntOp { op: IntBinOp::Add, a: arr as usize, b: (b1 + 1) as usize }),
        (Op::DefVar { slot: bu, val: (b2 + 1) as usize }),
        (Op::DeclareVar { slot: iu, ty: AbiTy::I64 }),
        (Op::DefVar { slot: iu, val: arr as usize }),
        Op::Jump(lb),
        Op::SealBlock(curb),
        Op::SwitchToBlock(lb),
        (Op::UseVar { slot: iu }),
        (Op::BrIcmp {
            cond: IntCond::Equal,
            a: (b2 + 8) as usize,
            b: (b2 + 1) as usize,
            then_block: cb,
            else_block: db,
        }),
        Op::SwitchToBlock(db),
        (Op::Store { val: ev as usize, addr: (b2 + 8) as usize, offset: 0 }),
        Op::Iconst(8),
        (Op::IntOp { op: IntBinOp::Add, a: (b2 + 8) as usize, b: (b2 + 12) as usize }),
        (Op::DefVar { slot: iu, val: (b2 + 13) as usize }),
        Op::Jump(lb),
        Op::SealBlock(lb),
        Op::SealBlock(db),
        Op::SwitchToBlock(cb),
    ]
}


/// The lowering table: exactly which operations one expression form
/// appends to the stream (`ops0` its length before), what it returns,
/// and when it is owed success — the per-expression contract of
/// `codegen_expr`. `vars0` is the variable table before, `nb0`/`cur0`
/// the block count and current block before.
pub open spec fn lowers_expr(
    e: E,
    env: Seq<Option<VarVal>>,
    vars0: Seq<crate::ctx::Var>,
    ops0: Seq<Op>,
    st1: CgState,
    nb0: usize,
    cur0: usize,
    r: Result<Option<usize>, CgError>,
) -> bool {
    let base = ops0.len() as int;
    match e {
        E::Atom(a) => match a {
            Atom::Unit => st1.ops@ == ops0.push(Op::Iconst(0)) && (r matches Ok(Some(id))
                && id as int == base),
            Atom::Int(i) => st1.ops@ == ops0.push(Op::Iconst(i)) && (r matches Ok(Some(id))
                && id as int == base),
            Atom::Float(bits) => st1.ops@ == ops0.push(Op::F64Const(bits)) && (r matches Ok(
                Some(id),
            ) && id as int == base),
            Atom::Var(v2) => st1.ops@ == ops0 + use_ops(env, v2) && (r matches Ok(Some(id))
                && id as int == use_val(env, v2, base)),
        },
        E::IBinOp(b2) => st1.ops@ == ops0 + use_ops(env, b2.arg1) + use_ops(env, b2.arg2)
            + seq![
            (Op::IntOp {
                op: b2.op,
                a: use_val(env, b2.arg1, base) as usize,
                b: use_val(env, b2.arg2, base + use_ops(env, b2.arg1).len()) as usize,
            }),
        ] && (r matches Ok(Some(id)) && id as int == st1.ops@.len() - 1),
        E::FBinOp(b2) => st1.ops@ == ops0 + use_ops(env, b2.arg1) + use_ops(env, b2.arg2)
            + seq![
            (Op::FloatOp {
                op: b2.op,
                a: use_val(env, b2.arg1, base) as usize,
                b: use_val(env, b2.arg2, base + use_ops(env, b2.arg1).len()) as usize,
            }),
        ] && (r matches Ok(Some(id)) && id as int == st1.ops@.len() - 1),
        E::Neg(v2) => st1.ops@ == ops0 + use_ops(env, v2) + seq![
            Op::Ineg(use_val(env, v2, base) as usize),
        ] && (r matches Ok(Some(id)) && id as int == st1.ops@.len() - 1),
        E::FNeg(v2) => st1.ops@ == ops0 + use_ops(env, v2) + seq![
            Op::Fneg(use_val(env, v2, base) as usize),
        ] && (r matches Ok(Some(id)) && id as int == st1.ops@.len() - 1),
        E::Tuple { len: l } => if l <= 0x0fff_ffff {
            st1.ops@ == ops0 + seq![
                Op::Iconst(((l * 8) as i64)),
                (Op::CallMalloc { size: base as usize }),
            ] && (r matches Ok(Some(id)) && id as int == base + 1)
        } else {
            r is Err
        },
        E::TuplePut(t, ix, v2) => if ix <= 0x0fff_ffff {
            st1.ops@ == ops0 + use_ops(env, t) + use_ops(env, v2) + seq![
                (Op::Store {
                    val: use_val(env, v2, base + use_ops(env, t).len()) as usize,
                    addr: use_val(env, t, base) as usize,
                    offset: ((ix * 8) as i32),
                }),
            ] && r matches Ok(None)
        } else {
            r is Err
        },
        E::TupleGet(t, ix) => match tuple_load_abi(vars0, t, ix as int) {
            Some(lt) => ix <= 0x0fff_ffff ==> st1.ops@ == ops0 + use_ops(env, t) + seq![
                (Op::Load {
                    ty: lt,
                    addr: use_val(env, t, base) as usize,
                    offset: ((ix * 8) as i32),
                }),
            ] && (r matches Ok(Some(id)) && id as int == st1.ops@.len() - 1),
            None => r is Err,
        },
        E::ArrayGet(av, iv) => match array_load_abi(vars0, av) {
            Some(lt) => st1.ops@ == ops0 + use_ops(env, av) + use_ops(env, iv) + seq![
                Op::Iconst(8),
                (Op::IntOp {
                    op: IntBinOp::Mul,
                    a: use_val(env, iv, base + use_ops(env, av).len()) as usize,
                    b: (base + use_ops(env, av).len() + use_ops(env, iv).len()) as usize,
                }),
                (Op::IntOp {
                    op: IntBinOp::Add,
                    a: use_val(env, av, base) as usize,
                    b: (base + use_ops(env, av).len() + use_ops(env, iv).len() + 1) as usize,
                }),
                (Op::Load {
                    ty: lt,
                    addr: (base + use_ops(env, av).len() + use_ops(env, iv).len()
                        + 2) as usize,
                    offset: 0,
                }),
            ] && (r matches Ok(Some(id)) && id as int == st1.ops@.len() - 1),
            None => r is Err,
        },
        E::ArrayPut(av, iv, vv) => st1.ops@ == ops0 + use_ops(env, av) + use_ops(env, iv)
            + use_ops(env, vv) + seq![
            Op::Iconst(8),
            (Op::IntOp {
                op: IntBinOp::Mul,
                a: use_val(env, iv, base + use_ops(env, av).len()) as usize,
                b: (base + use_ops(env, av).len() + use_ops(env, iv).len() + use_ops(
                    env,
                    vv,
                ).len()) as usize,
            }),
            (Op::IntOp {
                op: IntBinOp::Add,
                a: use_val(env, av, base) as usize,
                b: (base + use_ops(env, av).len() + use_ops(env, iv).len() + use_ops(
                    env,
                    vv,
                ).len() + 1) as usize,
            }),
            (Op::Store {
                val: use_val(
                    env,
                    vv,
                    base + use_ops(env, av).len() + use_ops(env, iv).len(),
                ) as usize,
                addr: (base + use_ops(env, av).len() + use_ops(env, iv).len() + use_ops(
                    env,
                    vv,
                ).len() + 2) as usize,
                offset: 0,
            }),
            Op::Iconst(0),
        ] && (r matches Ok(Some(id)) && id as int == st1.ops@.len() - 1),
        E::ArrayAlloc { len: al, elem: ae } => if vars0.len() < 0xffff_fff0 {
            st1.ops@ == ops0 + array_alloc_ops(
                env,
                al,
                ae,
                base,
                (vars0.len() as u32),
                ((vars0.len() + 1) as u32),
                nb0,
                (nb0 + 1) as usize,
                (nb0 + 2) as usize,
                cur0,
            ) && st1.n_blocks == nb0 + 3 && st1.cur == (nb0 + 2) as usize && (r matches Ok(
                Some(id),
            ) && id as int == base + use_ops(env, al).len() + 2)
        } else {
            r is Err
        },
        E::App(f, aa, rt) => (forall|k: int|
            0 <= k < aa@.len() ==> ((#[trigger] aa@[k]) as int) < vars0.len()) ==> (
        st1.ops@.len() > 0 && (st1.ops@.last() matches Op::CallIndirect {
            params,
            ret: rr,
            callee,
            args: avs,
        } && params@.len() == aa@.len() && (forall|k: int|
            0 <= k < aa@.len() ==> #[trigger] params@[k] == spec_rep_abi(
                vars0[aa@[k] as int].rep,
            )) && rr == spec_rep_abi(rt) && callee as int == use_val(env, f, base)
            && avs@.len() == aa@.len()) && (r matches Ok(Some(id)) && id as int
            == st1.ops@.len() - 1)),
    }
}

/// Assembling the array-allocation stream: the concrete emits equal the
/// specified sequence.
#[verifier::rlimit(100)]
proof fn lemma_array_alloc_stream(
    env: Seq<Option<VarVal>>,
    len: VarId,
    elem: VarId,
    ops0: Seq<Op>,
    mid: Seq<Op>,
    fin: Seq<Op>,
    len_val: usize,
    ws: usize,
    size_val: usize,
    arr: usize,
    elem_val: usize,
    bu: VarId,
    iu: VarId,
    bound_val: usize,
    idx_val: usize,
    ws2: usize,
    next_idx: usize,
    lb: usize,
    db: usize,
    cb: usize,
    curb: usize,
)
    requires
        mid =~= ((ops0 + use_ops(env, len)).push(Op::Iconst(8)).push(
            (Op::IntOp { op: IntBinOp::Mul, a: len_val, b: ws }),
        ).push((Op::CallMalloc { size: size_val }))) + use_ops(env, elem),
        fin =~= mid.push((Op::DeclareVar { slot: bu, ty: AbiTy::I64 })).push(
            (Op::IntOp { op: IntBinOp::Add, a: arr, b: size_val }),
        ).push((Op::DefVar { slot: bu, val: bound_val })).push(
            (Op::DeclareVar { slot: iu, ty: AbiTy::I64 }),
        ).push((Op::DefVar { slot: iu, val: arr })).push(Op::Jump(lb)).push(
            Op::SealBlock(curb),
        ).push(Op::SwitchToBlock(lb)).push((Op::UseVar { slot: iu })).push(
            (Op::BrIcmp {
                cond: IntCond::Equal,
                a: idx_val,
                b: bound_val,
                then_block: cb,
                else_block: db,
            }),
        ).push(Op::SwitchToBlock(db)).push(
            (Op::Store { val: elem_val, addr: idx_val, offset: 0 }),
        ).push(Op::Iconst(8)).push((Op::IntOp { op: IntBinOp::Add, a: idx_val, b: ws2 })).push(
            (Op::DefVar { slot: iu, val: next_idx }),
        ).push(Op::Jump(lb)).push(Op::SealBlock(lb)).push(Op::SealBlock(db)).push(
            Op::SwitchToBlock(cb),
        ),
        len_val as int == use_val(env, len, ops0.len() as int),
        ws as int == ops0.len() + use_ops(env, len).len(),
        size_val as int == ops0.len() + use_ops(env, len).len() + 1,
        arr as int == ops0.len() + use_ops(env, len).len() + 2,
        elem_val as int == use_val(
            env,
            elem,
            (ops0.len() + use_ops(env, len).len() + 3) as int,
        ),
        bound_val as int == ops0.len() + use_ops(env, len).len() + 3 + use_ops(
            env,
            elem,
        ).len() + 1,
        idx_val as int == ops0.len() + use_ops(env, len).len() + 3 + use_ops(
            env,
            elem,
        ).len() + 8,
        ws2 as int == ops0.len() + use_ops(env, len).len() + 3 + use_ops(env, elem).len()
            + 12,
        next_idx as int == ops0.len() + use_ops(env, len).len() + 3 + use_ops(
            env,
            elem,
        ).len() + 13,
    ensures
        fin == ops0 + array_alloc_ops(env, len, elem, ops0.len() as int, bu, iu, lb, db, cb, curb),
{
    reveal(array_alloc_ops);
    assert(fin =~= ops0 + array_alloc_ops(
        env,
        len,
        elem,
        ops0.len() as int,
        bu,
        iu,
        lb,
        db,
        cb,
        curb,
    ));
}

/// Errors of the code generator: the lowered IR broke one of its
/// invariants.
#[derive(Debug)]
pub enum CgError {
    /// A variable is outside the context's table.
    BadVar(VarId),
    /// A branch or jump target resolves to no block of the function.
    BadLabel(Label),
    /// A tuple operation on a variable whose type is not a tuple.
    NotATuple(VarId),
    /// An array operation on a variable whose type is not an array.
    NotAnArray(VarId),
    /// A function has no blocks.
    NoBlocks,
    /// The entry function is missing or has the wrong signature.
    NoMain,
    /// A constant offset or size does not fit the instruction encoding.
    TooLarge,
    /// The variable table is full.
    TooManyVars,
}

/// What a variable stands for at a use site.
#[derive(Debug, Clone, Copy)]
pub enum VarVal {
    /// A function argument, already materialized.
    Arg(usize),
    /// A declared function; its address is re-materialized at every
    /// use, since a cached value need not dominate later uses.
    FunRef(usize),
    /// An imported data object (a built-in); likewise re-materialized.
    DataRef(usize),
}

/// Maps each variable to what it stands for; variables not in the map
/// are local slots defined by earlier assignments.
pub type Env = Vec<Option<VarVal>>;

/// Emit the value of a variable at a use site.
fn use_var(st: &mut CgState, env: &Env, v: VarId, gvars: Ghost<Seq<crate::ctx::Var>>) -> (r:
    usize)
    requires
        st_inv(*old(st)),
        p5_slot_widths(old(st).ops@, gvars@),
    ensures
        st_inv(*final(st)),
        p5_slot_widths(final(st).ops@, gvars@),
        final(st).n_blocks == old(st).n_blocks,
        final(st).sealed@ == old(st).sealed@,
        final(st).cur == old(st).cur,
        seq_ext(old(st).ops@, final(st).ops@),
        final(st).ops@ == old(st).ops@ + use_ops(env@, v),
        r as int == use_val(env@, v, old(st).ops@.len() as int),
        (v as int) < env@.len() ==> (env@[v as int] matches Some(VarVal::Arg(id)) ==> r == id
            && final(st).ops@ == old(st).ops@),
        (v as int) < env@.len() ==> (env@[v as int] matches Some(VarVal::FunRef(f))
            ==> final(st).ops@ == old(st).ops@.push((Op::FuncAddr { func: f })) && r
            == old(st).ops@.len()),
        (v as int) < env@.len() ==> (env@[v as int] matches Some(VarVal::DataRef(d))
            ==> final(st).ops@ == old(st).ops@.push((Op::DataAddr { data: d })) && r
            == old(st).ops@.len()),
        ((v as int) >= env@.len() || env@[v as int] is None) ==> final(st).ops@
            == old(st).ops@.push((Op::UseVar { slot: v })) && r == old(st).ops@.len(),
{
    let ghost ops0 = st.ops@;
    if (v as usize) < env.len() {
        match &env[v as usize] {
            Some(VarVal::Arg(id)) => {
                proof {
                    assert(st.ops@ =~= ops0 + use_ops(env@, v));
                }
                *id
            },
            Some(VarVal::FunRef(f)) => {
                let r = emit(st, Op::FuncAddr { func: *f }, gvars);
                proof {
                    assert(st.ops@ =~= ops0 + use_ops(env@, v));
                }
                r
            },
            Some(VarVal::DataRef(d)) => {
                let r = emit(st, Op::DataAddr { data: *d }, gvars);
                proof {
                    assert(st.ops@ =~= ops0 + use_ops(env@, v));
                }
                r
            },
            None => {
                let r = emit(st, Op::UseVar { slot: v }, gvars);
                proof {
                    assert(st.ops@ =~= ops0 + use_ops(env@, v));
                }
                r
            },
        }
    } else {
        let r = emit(st, Op::UseVar { slot: v }, gvars);
        proof {
            assert(st.ops@ =~= ops0 + use_ops(env@, v));
        }
        r
    }
}

/// The tuple and array load/store forms of `codegen_expr`.
#[verifier::loop_isolation(false)]
#[verifier::rlimit(100)]
fn codegen_expr_mem(
    ctx: &mut Ctx,
    env: &Env,
    st: &mut CgState,
    e: &crate::lower::fun::Expr,
    lo: Ghost<int>,
    hi: Ghost<int>,
) -> (r: Result<Option<usize>, CgError>)
    requires
        st_inv(*old(st)),
        p5_slot_widths(old(st).ops@, old(ctx).vars@),
        unsealed_shape(*old(st), lo@, hi@),
        (old(st).cur as int) < old(st).n_blocks,
        old(st).cur < lo@ || old(st).cur >= hi@,
        hi@ <= old(st).n_blocks,
        0 <= lo@,
        e is TuplePut || e is TupleGet || e is ArrayGet || e is ArrayPut,
    ensures
        st_inv(*final(st)),
        p5_slot_widths(final(st).ops@, final(ctx).vars@),
        unsealed_shape(*final(st), lo@, hi@),
        (final(st).cur as int) < final(st).n_blocks,
        final(st).cur < lo@ || final(st).cur >= hi@,
        final(st).n_blocks >= old(st).n_blocks,
        old(ctx).vars@.len() <= final(ctx).vars@.len(),
        forall|k: int|
            0 <= k < old(ctx).vars@.len() ==> final(ctx).vars@[k] == #[trigger] old(
                ctx,
            ).vars@[k],
        seq_ext(old(st).ops@, final(st).ops@),
        lowers_expr(
            *e,
            env@,
            old(ctx).vars@,
            old(st).ops@,
            *final(st),
            old(st).n_blocks,
            old(st).cur,
            r,
        ),
        r matches Ok(ov) ==> (ov is None <==> e is TuplePut),
{
    let gv: Ghost<Seq<crate::ctx::Var>> = Ghost(ctx.vars@);
    proof {
        assert(seq_ext(st.ops@, st.ops@));
    }
    match e {
        E::TuplePut(t, idx, v) => {
            if *idx > 0x0fff_ffff {
                return Err(CgError::TooLarge);
            }
            let ghost ops0 = st.ops@;
            let tv = use_var(st, env, *t, gv);
            let vv = use_var(st, env, *v, gv);
            let off: i32 = (*idx as i32) * 8;
            emit(st, Op::Store { val: vv, addr: tv, offset: off }, gv);
            proof {
                assert(st.ops@ =~= ops0 + use_ops(env@, *t) + use_ops(env@, *v) + seq![
                    (Op::Store { val: vv, addr: tv, offset: off }),
                ]);
            }
            Ok(None)
        },
        E::TupleGet(t, idx) => {
            if (*t as usize) >= ctx.len() {
                return Err(CgError::BadVar(*t));
            }
            if *idx > 0x0fff_ffff {
                return Err(CgError::TooLarge);
            }
            let elem_ty: AbiTy = match ctx.var_type(*t) {
                Some(Type::Tuple(ts)) => {
                    if *idx >= ts.len() {
                        return Err(CgError::NotATuple(*t));
                    }
                    rep_type_abi(crate::cg_types::rep_type_of(&ts[*idx]))
                },
                Some(Type::Fun { .. }) => AbiTy::I64,
                _ => {
                    return Err(CgError::NotATuple(*t));
                },
            };
            let ghost ops0 = st.ops@;
            let tv = use_var(st, env, *t, gv);
            let off: i32 = (*idx as i32) * 8;
            let id = emit(st, Op::Load { ty: elem_ty, addr: tv, offset: off }, gv);
            proof {
                assert(st.ops@ =~= ops0 + use_ops(env@, *t) + seq![
                    (Op::Load { ty: elem_ty, addr: tv, offset: off }),
                ]);
            }
            Ok(Some(id))
        },
        E::ArrayGet(a, i) => {
            if (*a as usize) >= ctx.len() {
                return Err(CgError::BadVar(*a));
            }
            let elem_ty: AbiTy = match ctx.var_type(*a) {
                Some(Type::Array(t)) => rep_type_abi(crate::cg_types::rep_type_of(&**t)),
                _ => {
                    return Err(CgError::NotAnArray(*a));
                },
            };
            let ghost ops0 = st.ops@;
            let av = use_var(st, env, *a, gv);
            let iv = use_var(st, env, *i, gv);
            let ws = emit(st, Op::Iconst(8), gv);
            let off = emit(st, Op::IntOp { op: IntBinOp::Mul, a: iv, b: ws }, gv);
            let addr = emit(st, Op::IntOp { op: IntBinOp::Add, a: av, b: off }, gv);
            let id = emit(st, Op::Load { ty: elem_ty, addr, offset: 0 }, gv);
            proof {
                assert(st.ops@ =~= ops0 + use_ops(env@, *a) + use_ops(env@, *i) + seq![
                    Op::Iconst(8),
                    (Op::IntOp { op: IntBinOp::Mul, a: iv, b: ws }),
                    (Op::IntOp { op: IntBinOp::Add, a: av, b: off }),
                    (Op::Load { ty: elem_ty, addr, offset: 0 }),
                ]);
            }
            Ok(Some(id))
        },
        E::ArrayPut(a, i, v) => {
            let ghost ops0 = st.ops@;
            let av = use_var(st, env, *a, gv);
            let iv = use_var(st, env, *i, gv);
            let vv = use_var(st, env, *v, gv);
            let ws = emit(st, Op::Iconst(8), gv);
            let off = emit(st, Op::IntOp { op: IntBinOp::Mul, a: iv, b: ws }, gv);
            let addr = emit(st, Op::IntOp { op: IntBinOp::Add, a: av, b: off }, gv);
            emit(st, Op::Store { val: vv, addr, offset: 0 }, gv);
            let id = emit(st, Op::Iconst(0), gv);
            proof {
                assert(st.ops@ =~= ops0 + use_ops(env@, *a) + use_ops(env@, *i) + use_ops(
                    env@,
                    *v,
                ) + seq![
                    Op::Iconst(8),
                    (Op::IntOp { op: IntBinOp::Mul, a: iv, b: ws }),
                    (Op::IntOp { op: IntBinOp::Add, a: av, b: off }),
                    (Op::Store { val: vv, addr, offset: 0 }),
                    Op::Iconst(0),
                ]);
            }
            Ok(Some(id))
        },
        _ => {
            proof {
                assert(false);
            }
            Err(CgError::TooLarge)
        },
    }
}

/// The indirect-application form of `codegen_expr`.
#[verifier::loop_isolation(false)]
#[verifier::rlimit(100)]
fn codegen_expr_call(
    ctx: &mut Ctx,
    env: &Env,
    st: &mut CgState,
    e: &crate::lower::fun::Expr,
    lo: Ghost<int>,
    hi: Ghost<int>,
) -> (r: Result<Option<usize>, CgError>)
    requires
        st_inv(*old(st)),
        p5_slot_widths(old(st).ops@, old(ctx).vars@),
        unsealed_shape(*old(st), lo@, hi@),
        (old(st).cur as int) < old(st).n_blocks,
        old(st).cur < lo@ || old(st).cur >= hi@,
        hi@ <= old(st).n_blocks,
        0 <= lo@,
        e is App,
    ensures
        st_inv(*final(st)),
        p5_slot_widths(final(st).ops@, final(ctx).vars@),
        unsealed_shape(*final(st), lo@, hi@),
        (final(st).cur as int) < final(st).n_blocks,
        final(st).cur < lo@ || final(st).cur >= hi@,
        final(st).n_blocks >= old(st).n_blocks,
        old(ctx).vars@.len() <= final(ctx).vars@.len(),
        forall|k: int|
            0 <= k < old(ctx).vars@.len() ==> final(ctx).vars@[k] == #[trigger] old(
                ctx,
            ).vars@[k],
        seq_ext(old(st).ops@, final(st).ops@),
        lowers_expr(
            *e,
            env@,
            old(ctx).vars@,
            old(st).ops@,
            *final(st),
            old(st).n_blocks,
            old(st).cur,
            r,
        ),
        r matches Ok(ov) ==> (ov is None <==> e is TuplePut),
{
    let gv: Ghost<Seq<crate::ctx::Var>> = Ghost(ctx.vars@);
    proof {
        assert(seq_ext(st.ops@, st.ops@));
    }
    match e {
        E::App(f, args, ret) => {
            let ghost ops0 = st.ops@;
            let mut params: Vec<AbiTy> = Vec::new();
            let mut j: usize = 0;
            while j < args.len()
                invariant
                    j <= args@.len(),
                    e is App,
                    params@.len() == j as nat,
                    forall|k: int|
                        0 <= k < j ==> (args@[k] as int) < ctx.vars@.len() && (
                        #[trigger] params@[k]) == spec_rep_abi(
                            ctx.vars@[args@[k] as int].rep,
                        ),
                decreases args@.len() - j,
            {
                let a = args[j];
                if (a as usize) >= ctx.len() {
                    return Err(CgError::BadVar(a));
                }
                params.push(rep_type_abi(ctx.var_rep_type(a)));
                j += 1;
            }
            let retty = rep_type_abi(*ret);
            let callee = use_var(st, env, *f, gv);
            let mut vals: Vec<usize> = Vec::new();
            let mut j2: usize = 0;
            while j2 < args.len()
                invariant
                    j2 <= args@.len(),
                    st_inv(*st),
                    p5_slot_widths(st.ops@, gv@),
                    st.n_blocks == old(st).n_blocks,
                    st.sealed@ == old(st).sealed@,
                    st.cur == old(st).cur,
                    e is App,
                    vals@.len() == j2 as nat,
                    seq_ext(old(st).ops@, st.ops@),
                decreases args@.len() - j2,
            {
                let a = use_var(st, env, args[j2], gv);
                vals.push(a);
                j2 += 1;
            }
            let id = emit(
                st,
                Op::CallIndirect { params, ret: retty, callee, args: vals },
                gv,
            );
            proof {
                assert(st.ops@.last() == st.ops@[st.ops@.len() - 1]);
            }
            Ok(Some(id))
        },
        _ => {
            proof {
                assert(false);
            }
            Err(CgError::TooLarge)
        },
    }
}

/// The array-allocation form of `codegen_expr`, with its synthesized
/// initialization loop.
#[verifier::loop_isolation(false)]
#[verifier::rlimit(100)]
#[verifier::spinoff_prover]
fn codegen_expr_alloc(
    ctx: &mut Ctx,
    env: &Env,
    st: &mut CgState,
    e: &crate::lower::fun::Expr,
    lo: Ghost<int>,
    hi: Ghost<int>,
) -> (r: Result<Option<usize>, CgError>)
    requires
        st_inv(*old(st)),
        p5_slot_widths(old(st).ops@, old(ctx).vars@),
        unsealed_shape(*old(st), lo@, hi@),
        (old(st).cur as int) < old(st).n_blocks,
        old(st).cur < lo@ || old(st).cur >= hi@,
        hi@ <= old(st).n_blocks,
        0 <= lo@,
        e is ArrayAlloc,
    ensures
        st_inv(*final(st)),
        p5_slot_widths(final(st).ops@, final(ctx).vars@),
        unsealed_shape(*final(st), lo@, hi@),
        (final(st).cur as int) < final(st).n_blocks,
        final(st).cur < lo@ || final(st).cur >= hi@,
        final(st).n_blocks >= old(st).n_blocks,
        old(ctx).vars@.len() <= final(ctx).vars@.len(),
        forall|k: int|
            0 <= k < old(ctx).vars@.len() ==> final(ctx).vars@[k] == #[trigger] old(
                ctx,
            ).vars@[k],
        seq_ext(old(st).ops@, final(st).ops@),
        lowers_expr(
            *e,
            env@,
            old(ctx).vars@,
            old(st).ops@,
            *final(st),
            old(st).n_blocks,
            old(st).cur,
            r,
        ),
        r matches Ok(ov) ==> (ov is None <==> e is TuplePut),
{
    let gv: Ghost<Seq<crate::ctx::Var>> = Ghost(ctx.vars@);
    proof {
        assert(seq_ext(st.ops@, st.ops@));
    }
    match e {
        E::ArrayAlloc { len, elem } => {
            let ghost ops0 = st.ops@;
            let len_val = use_var(st, env, *len, gv);
            let ws = emit(st, Op::Iconst(8), gv);
            let size_val = emit(st, Op::IntOp { op: IntBinOp::Mul, a: len_val, b: ws }, gv);
            let arr = emit(st, Op::CallMalloc { size: size_val }, gv);
            let elem_val = use_var(st, env, *elem, gv);
            let ghost mid = st.ops@;
            proof {
                assert(mid =~= ((ops0 + use_ops(env@, *len)).push(Op::Iconst(8)).push(
                    (Op::IntOp { op: IntBinOp::Mul, a: len_val, b: ws }),
                ).push((Op::CallMalloc { size: size_val }))) + use_ops(env@, *elem));
            }
            if ctx.len() >= 0xffff_fff0 {
                return Err(CgError::TooManyVars);
            }
            let ghost vars0 = ctx.vars@;
            let bound_uniq = ctx.fresh_uniq();
            let idx_uniq = ctx.fresh_uniq();
            let gv2: Ghost<Seq<crate::ctx::Var>> = Ghost(ctx.vars@);
            proof {
                lemma_p5_grow(st.ops@, vars0, ctx.vars@);
                assert(ctx.vars@[bound_uniq as int].rep == RepType::Word);
                assert(ctx.vars@[idx_uniq as int].rep == RepType::Word);
            }
            emit(st, Op::DeclareVar { slot: bound_uniq, ty: AbiTy::I64 }, gv2);
            let bound_val = emit(
                st,
                Op::IntOp { op: IntBinOp::Add, a: arr, b: size_val },
                gv2,
            );
            emit(st, Op::DefVar { slot: bound_uniq, val: bound_val }, gv2);
            let loop_block = create_block(st);
            let doit_block = create_block(st);
            let cont_block = create_block(st);
            emit(st, Op::DeclareVar { slot: idx_uniq, ty: AbiTy::I64 }, gv2);
            emit(st, Op::DefVar { slot: idx_uniq, val: arr }, gv2);
            emit(st, Op::Jump(loop_block), gv2);
            let pre = st.cur;
            seal_block(st, pre, gv2);
            switch_to_block(st, loop_block, gv2);
            let idx_val = emit(st, Op::UseVar { slot: idx_uniq }, gv2);
            emit(
                st,
                Op::BrIcmp {
                    cond: IntCond::Equal,
                    a: idx_val,
                    b: bound_val,
                    then_block: cont_block,
                    else_block: doit_block,
                },
                gv2,
            );
            switch_to_block(st, doit_block, gv2);
            emit(st, Op::Store { val: elem_val, addr: idx_val, offset: 0 }, gv2);
            let ws2 = emit(st, Op::Iconst(8), gv2);
            let next_idx = emit(st, Op::IntOp { op: IntBinOp::Add, a: idx_val, b: ws2 }, gv2);
            emit(st, Op::DefVar { slot: idx_uniq, val: next_idx }, gv2);
            emit(st, Op::Jump(loop_block), gv2);
            seal_block(st, loop_block, gv2);
            seal_block(st, doit_block, gv2);
            switch_to_block(st, cont_block, gv2);
            proof {
                assert forall|b: int|
                    0 <= b < st.sealed@.len() implies (#[trigger] st.sealed@[b] == !(b
                    == st.cur || (lo@ <= b < hi@))) by {}
                lemma_array_alloc_stream(
                    env@,
                    *len,
                    *elem,
                    ops0,
                    mid,
                    st.ops@,
                    len_val,
                    ws,
                    size_val,
                    arr,
                    elem_val,
                    bound_uniq,
                    idx_uniq,
                    bound_val,
                    idx_val,
                    ws2,
                    next_idx,
                    loop_block,
                    doit_block,
                    cont_block,
                    pre,
                );
            }
            Ok(Some(arr))
        },
        _ => {
            proof {
                assert(false);
            }
            Err(CgError::TooLarge)
        },
    }
}

/// Emit one expression of the lowered IR into the current block. An
/// array allocation splits the block: the returned state's current
/// block is where emission continues. Returns the value of the
/// expression, if it has one.
#[verifier::loop_isolation(false)]
#[verifier::rlimit(100)]
fn codegen_expr(
    ctx: &mut Ctx,
    env: &Env,
    st: &mut CgState,
    e: &crate::lower::fun::Expr,
    lo: Ghost<int>,
    hi: Ghost<int>,
) -> (r: Result<Option<usize>, CgError>)
    requires
        st_inv(*old(st)),
        p5_slot_widths(old(st).ops@, old(ctx).vars@),
        unsealed_shape(*old(st), lo@, hi@),
        (old(st).cur as int) < old(st).n_blocks,
        old(st).cur < lo@ || old(st).cur >= hi@,
        hi@ <= old(st).n_blocks,
        0 <= lo@,
    ensures
        st_inv(*final(st)),
        p5_slot_widths(final(st).ops@, final(ctx).vars@),
        unsealed_shape(*final(st), lo@, hi@),
        (final(st).cur as int) < final(st).n_blocks,
        final(st).cur < lo@ || final(st).cur >= hi@,
        final(st).n_blocks >= old(st).n_blocks,
        old(ctx).vars@.len() <= final(ctx).vars@.len(),
        forall|k: int|
            0 <= k < old(ctx).vars@.len() ==> final(ctx).vars@[k] == #[trigger] old(
                ctx,
            ).vars@[k],
        seq_ext(old(st).ops@, final(st).ops@),
        lowers_expr(
            *e,
            env@,
            old(ctx).vars@,
            old(st).ops@,
            *final(st),
            old(st).n_blocks,
            old(st).cur,
            r,
        ),
        r matches Ok(ov) ==> (ov is None <==> e is TuplePut),
{
    let gv: Ghost<Seq<crate::ctx::Var>> = Ghost(ctx.vars@);
    proof {
        assert(seq_ext(st.ops@, st.ops@));
    }
    match e {
        E::TuplePut(_, _, _) => codegen_expr_mem(ctx, env, st, e, lo, hi),
        E::TupleGet(_, _) => codegen_expr_mem(ctx, env, st, e, lo, hi),
        E::ArrayGet(_, _) => codegen_expr_mem(ctx, env, st, e, lo, hi),
        E::ArrayPut(_, _, _) => codegen_expr_mem(ctx, env, st, e, lo, hi),
        E::App(_, _, _) => codegen_expr_call(ctx, env, st, e, lo, hi),
        E::ArrayAlloc { .. } => codegen_expr_alloc(ctx, env, st, e, lo, hi),
        E::Atom(Atom::Unit) => Ok(Some(emit(st, Op::Iconst(0), gv))),
        E::Atom(Atom::Int(i)) => Ok(Some(emit(st, Op::Iconst(*i), gv))),
        E::Atom(Atom::Float(bits)) => Ok(Some(emit(st, Op::F64Const(*bits), gv))),
        E::Atom(Atom::Var(v)) => Ok(Some(use_var(st, env, *v, gv))),
        E::IBinOp(b) => {
            let ghost ops0 = st.ops@;
            let a1 = use_var(st, env, b.arg1, gv);
            let a2 = use_var(st, env, b.arg2, gv);
            let id = emit(st, Op::IntOp { op: b.op, a: a1, b: a2 }, gv);
            proof {
                assert(st.ops@ =~= ops0 + use_ops(env@, b.arg1) + use_ops(env@, b.arg2)
                    + seq![(Op::IntOp { op: b.op, a: a1, b: a2 })]);
            }
            Ok(Some(id))
        },
        E::FBinOp(b) => {
            let ghost ops0 = st.ops@;
            let a1 = use_var(st, env, b.arg1, gv);
            let a2 = use_var(st, env, b.arg2, gv);
            let id = emit(st, Op::FloatOp { op: b.op, a: a1, b: a2 }, gv);
            proof {
                assert(st.ops@ =~= ops0 + use_ops(env@, b.arg1) + use_ops(env@, b.arg2)
                    + seq![(Op::FloatOp { op: b.op, a: a1, b: a2 })]);
            }
            Ok(Some(id))
        },
        E::Neg(v) => {
            let ghost ops0 = st.ops@;
            let a = use_var(st, env, *v, gv);
            let id = emit(st, Op::Ineg(a), gv);
            proof {
                assert(st.ops@ =~= ops0 + use_ops(env@, *v) + seq![Op::Ineg(a)]);
            }
            Ok(Some(id))
        },
        E::FNeg(v) => {
            let ghost ops0 = st.ops@;
            let a = use_var(st, env, *v, gv);
            let id = emit(st, Op::Fneg(a), gv);
            proof {
                assert(st.ops@ =~= ops0 + use_ops(env@, *v) + seq![Op::Fneg(a)]);
            }
            Ok(Some(id))
        },
        E::Tuple { len } => {
            if *len > 0x0fff_ffff {
                return Err(CgError::TooLarge);
            }
            let ghost ops0 = st.ops@;
            let bytes: i64 = (*len as i64) * 8;
            let size = emit(st, Op::Iconst(bytes), gv);
            let id = emit(st, Op::CallMalloc { size }, gv);
            proof {
                assert(st.ops@ =~= ops0 + seq![
                    Op::Iconst(bytes),
                    (Op::CallMalloc { size }),
                ]);
            }
            Ok(Some(id))
        },
    }
}

/// The block of a label: the first block carrying it, if any.
pub open spec fn spec_find_label(blocks: Seq<crate::lower::fun::Block>, l: Label) -> Option<
    int,
>
    decreases blocks,
{
    if blocks.len() == 0 {
        None
    } else if blocks[0].label == l {
        Some(0int)
    } else {
        match spec_find_label(blocks.subrange(1, blocks.len() as int), l) {
            Some(i) => Some(i + 1),
            None => None,
        }
    }
}

/// A hit after an unmatched prefix is the found index.
proof fn lemma_find_label_hit(blocks: Seq<crate::lower::fun::Block>, l: Label, i: int)
    requires
        0 <= i < blocks.len(),
        forall|k: int| 0 <= k < i ==> (#[trigger] blocks[k]).label != l,
        blocks[i].label == l,
    ensures
        spec_find_label(blocks, l) == Some(i),
    decreases i,
{
    if i > 0 {
        lemma_find_label_hit(blocks.subrange(1, blocks.len() as int), l, i - 1);
    }
}

/// No hit anywhere means no index.
proof fn lemma_find_label_none(blocks: Seq<crate::lower::fun::Block>, l: Label)
    requires
        forall|k: int| 0 <= k < blocks.len() ==> (#[trigger] blocks[k]).label != l,
    ensures
        spec_find_label(blocks, l) is None,
    decreases blocks,
{
    if blocks.len() > 0 {
        lemma_find_label_none(blocks.subrange(1, blocks.len() as int), l);
    }
}

/// The block index of a label.
fn find_label(fun: &Fun, l: Label) -> (r: Result<usize, CgError>)
    ensures
        r matches Ok(i) ==> i < fun.blocks@.len(),
        r is Ok <==> spec_find_label(fun.blocks@, l) is Some,
        r matches Ok(i) ==> spec_find_label(fun.blocks@, l) == Some(i as int),
{
    let mut i: usize = 0;
    while i < fun.blocks.len()
        invariant
            i <= fun.blocks@.len(),
            forall|k: int| 0 <= k < i ==> (#[trigger] fun.blocks@[k]).label != l,
        decreases fun.blocks@.len() - i,
    {
        if fun.blocks[i].label.0 == l.0 {
            proof {
                lemma_find_label_hit(fun.blocks@, l, i as int);
            }
            return Ok(i);
        }
        i += 1;
    }
    proof {
        lemma_find_label_none(fun.blocks@, l);
    }
    Err(CgError::BadLabel(l))
}

/// The exit-lowering table: which operations one block terminator
/// appends — a return of the used value; a compare-and-branch on the
/// signed condition for word operands; a float compare and a
/// branch-on-nonzero for float operands; an unconditional jump — the
/// contract of `codegen_exit`.
pub open spec fn lowers_exit(
    ex: Exit,
    env: Seq<Option<VarVal>>,
    vars: Seq<crate::ctx::Var>,
    blocks: Seq<crate::lower::fun::Block>,
    ops0: Seq<Op>,
    st1: CgState,
    r: Result<(), CgError>,
) -> bool {
    let base = ops0.len() as int;
    match ex {
        Exit::Return(v) => st1.ops@ == ops0 + use_ops(env, v) + seq![
            Op::Return(use_val(env, v, base) as usize),
        ] && r is Ok,
        Exit::Jump(l) => match spec_find_label(blocks, l) {
            Some(t) => st1.ops@ == ops0 + seq![Op::Jump(t as usize)] && r is Ok,
            None => r is Err,
        },
        Exit::Branch { v1, v2, cond, then_label, else_label } => if (v1 as int)
            < vars.len() {
            match (spec_find_label(blocks, then_label), spec_find_label(blocks, else_label)) {
                (Some(tb), Some(eb)) => match vars[v1 as int].rep {
                    RepType::Word => st1.ops@ == ops0 + use_ops(env, v1) + use_ops(env, v2)
                        + seq![
                        (Op::BrIcmp {
                            cond: spec_word_cond(cond),
                            a: use_val(env, v1, base) as usize,
                            b: use_val(env, v2, base + use_ops(env, v1).len()) as usize,
                            then_block: tb as usize,
                            else_block: eb as usize,
                        }),
                    ] && r is Ok,
                    RepType::Float => st1.ops@ == ops0 + use_ops(env, v1) + use_ops(env, v2)
                        + seq![
                        (Op::Fcmp {
                            cond: spec_float_cond(cond),
                            a: use_val(env, v1, base) as usize,
                            b: use_val(env, v2, base + use_ops(env, v1).len()) as usize,
                        }),
                        (Op::Brnz {
                            val: (base + use_ops(env, v1).len() + use_ops(
                                env,
                                v2,
                            ).len()) as usize,
                            then_block: tb as usize,
                            else_block: eb as usize,
                        }),
                    ] && r is Ok,
                },
                _ => r is Err,
            }
        } else {
            r is Err
        },
    }
}

/// The plan of one function: its ABI signature and the operations that
/// emit it, in order. Blocks `0 .. n_blocks` are created up front or by
/// the array-initialization loop.
#[derive(Debug)]
pub struct FuncPlan {
    pub params: Vec<AbiTy>,
    pub ret: AbiTy,
    pub ops: Vec<Op>,
    pub n_blocks: usize,
}

/// Emit one block terminator per the exit-lowering table.
#[verifier::loop_isolation(false)]
#[verifier::rlimit(100)]
fn codegen_exit(
    ctx: &Ctx,
    env: &Env,
    st: &mut CgState,
    fun: &Fun,
    ex: &Exit,
) -> (r: Result<(), CgError>)
    requires
        st_inv(*old(st)),
        p5_slot_widths(old(st).ops@, ctx.vars@),
    ensures
        st_inv(*final(st)),
        p5_slot_widths(final(st).ops@, ctx.vars@),
        final(st).n_blocks == old(st).n_blocks,
        final(st).sealed@ == old(st).sealed@,
        final(st).cur == old(st).cur,
        seq_ext(old(st).ops@, final(st).ops@),
        lowers_exit(*ex, env@, ctx.vars@, fun.blocks@, old(st).ops@, *final(st), r),
{
    let gve: Ghost<Seq<crate::ctx::Var>> = Ghost(ctx.vars@);
    let ghost ops0 = st.ops@;
    proof {
        assert(seq_ext(st.ops@, st.ops@));
    }
    match ex {
        Exit::Return(v) => {
            let val = use_var(st, env, *v, gve);
            emit(st, Op::Return(val), gve);
            proof {
                assert(st.ops@ =~= ops0 + use_ops(env@, *v) + seq![Op::Return(val)]);
            }
            Ok(())
        },
        Exit::Branch { v1, v2, cond, then_label, else_label } => {
            if (*v1 as usize) >= ctx.len() {
                return Err(CgError::BadVar(*v1));
            }
            let rep = ctx.var_rep_type(*v1);
            let a = use_var(st, env, *v1, gve);
            let b2 = use_var(st, env, *v2, gve);
            let tb = match find_label(fun, *then_label) {
                Ok(t) => t,
                Err(e2) => {
                    return Err(e2);
                },
            };
            let eb = match find_label(fun, *else_label) {
                Ok(t) => t,
                Err(e2) => {
                    return Err(e2);
                },
            };
            match rep {
                RepType::Word => {
                    let c = word_cond(*cond);
                    emit(
                        st,
                        Op::BrIcmp { cond: c, a, b: b2, then_block: tb, else_block: eb },
                        gve,
                    );
                    proof {
                        assert(st.ops@ =~= ops0 + use_ops(env@, *v1) + use_ops(env@, *v2)
                            + seq![
                            (Op::BrIcmp {
                                cond: c,
                                a,
                                b: b2,
                                then_block: tb,
                                else_block: eb,
                            }),
                        ]);
                    }
                },
                RepType::Float => {
                    let c = float_cond(*cond);
                    let cm = emit(st, Op::Fcmp { cond: c, a, b: b2 }, gve);
                    emit(st, Op::Brnz { val: cm, then_block: tb, else_block: eb }, gve);
                    proof {
                        assert(st.ops@ =~= ops0 + use_ops(env@, *v1) + use_ops(env@, *v2)
                            + seq![
                            (Op::Fcmp { cond: c, a, b: b2 }),
                            (Op::Brnz { val: cm, then_block: tb, else_block: eb }),
                        ]);
                    }
                },
            }
            Ok(())
        },
        Exit::Jump(l) => {
            let tb = match find_label(fun, *l) {
                Ok(t) => t,
                Err(e2) => {
                    return Err(e2);
                },
            };
            emit(st, Op::Jump(tb), gve);
            proof {
                assert(st.ops@ =~= ops0 + seq![Op::Jump(tb)]);
            }
            Ok(())
        },
    }
}

/// Build the plan of one function: pre-create one block per IR block,
/// bind the arguments in the entry block, walk the blocks emitting each
/// statement and exit, and seal each block exactly once, after all its
/// predecessors are known.
#[verifier::loop_isolation(false)]
#[verifier::rlimit(100)]
pub fn codegen_fun(ctx: &mut Ctx, global_env: &Env, fun: &Fun) -> (r: Result<FuncPlan, CgError>)
    ensures
        r matches Ok(p) ==> p6_sealed_once(p.ops@, p.n_blocks as int),
        r matches Ok(p) ==> p5_slot_widths(p.ops@, final(ctx).vars@),
        old(ctx).vars@.len() <= final(ctx).vars@.len(),
        forall|k: int|
            0 <= k < old(ctx).vars@.len() ==> #[trigger] final(ctx).vars@[k] == old(
                ctx,
            ).vars@[k],
        r matches Ok(p) ==> p.ret == spec_rep_abi(fun.return_type),
        r matches Ok(p) ==> p.params@.len() == fun.args@.len(),
        r matches Ok(p) ==> forall|i: int|
            0 <= i < fun.args@.len() ==> (fun.args@[i] as int) < final(ctx).vars@.len() && (
            #[trigger] p.params@[i]) == spec_rep_abi(
                final(ctx).vars@[fun.args@[i] as int].rep,
            ),
        r matches Ok(p) ==> p.ops@.len() >= 2 + fun.args@.len() && p.ops@[0]
            == Op::SwitchToBlock(0) && p.ops@[1] == Op::AppendFnParams(0),
        r matches Ok(p) ==> forall|i: int|
            0 <= i < fun.args@.len() ==> #[trigger] p.ops@[2 + i] == (Op::BlockParam {
                block: 0,
                index: i as usize,
            }),
{
    if fun.blocks.len() == 0 {
        return Err(CgError::NoBlocks);
    }
    let mut params: Vec<AbiTy> = Vec::new();
    let mut j: usize = 0;
    while j < fun.args.len()
        invariant
            j <= fun.args@.len(),
            params@.len() == j as nat,
            forall|i: int|
                0 <= i < j ==> (fun.args@[i] as int) < ctx.vars@.len() && (
                #[trigger] params@[i]) == spec_rep_abi(
                    ctx.vars@[fun.args@[i] as int].rep,
                ),
        decreases fun.args@.len() - j,
    {
        let a = fun.args[j];
        if (a as usize) >= ctx.len() {
            return Err(CgError::BadVar(a));
        }
        params.push(rep_type_abi(ctx.var_rep_type(a)));
        j += 1;
    }
    let retty = rep_type_abi(fun.return_type);
    let mut st = CgState { ops: Vec::new(), n_blocks: 0, sealed: Vec::new(), cur: 0 };
    let nlabels = fun.blocks.len();
    let mut i: usize = 0;
    while i < nlabels
        invariant
            i <= nlabels,
            st_inv(st),
            st.ops@.len() == 0,
            st.n_blocks == i,
            st.sealed@.len() == i,
            forall|b: int| 0 <= b < i ==> !(#[trigger] st.sealed@[b]),
        decreases nlabels - i,
    {
        create_block(&mut st);
        i += 1;
    }
    let gv: Ghost<Seq<crate::ctx::Var>> = Ghost(ctx.vars@);
    switch_to_block(&mut st, 0, gv);
    emit(&mut st, Op::AppendFnParams(0), gv);
    let mut env: Env = Vec::new();
    let mut k: usize = 0;
    let clen = ctx.len();
    while k < clen
        invariant
            k <= clen,
            env@.len() == k as nat,
        decreases clen - k,
    {
        if k < global_env.len() {
            env.push(global_env[k]);
        } else {
            env.push(None);
        }
        k += 1;
    }
    let mut ai: usize = 0;
    while ai < fun.args.len()
        invariant
            ai <= fun.args@.len(),
            st_inv(st),
            p5_slot_widths(st.ops@, gv@),
            st.n_blocks == nlabels,
            st.sealed@.len() == nlabels,
            st.cur == 0,
            forall|b: int| 0 <= b < nlabels ==> !(#[trigger] st.sealed@[b]),
            env@.len() == clen as nat,
            gv@ == ctx.vars@,
            st.ops@.len() == 2 + ai,
            st.ops@[0] == Op::SwitchToBlock(0),
            st.ops@[1] == Op::AppendFnParams(0),
            forall|k: int|
                0 <= k < ai ==> #[trigger] st.ops@[2 + k] == (Op::BlockParam {
                    block: 0,
                    index: k as usize,
                }),
        decreases fun.args@.len() - ai,
    {
        let id = emit(&mut st, Op::BlockParam { block: 0, index: ai }, gv);
        let a = fun.args[ai];
        if (a as usize) >= env.len() {
            return Err(CgError::BadVar(a));
        }
        env.set(a as usize, Some(VarVal::Arg(id)));
        ai += 1;
    }
    let ghost entry_ops = st.ops@;
    let mut bi: usize = 0;
    while bi < nlabels
        invariant
            bi <= nlabels,
            st_inv(st),
            p5_slot_widths(st.ops@, ctx.vars@),
            seq_ext(entry_ops, st.ops@),
            entry_ops.len() == 2 + fun.args@.len(),
            entry_ops[0] == Op::SwitchToBlock(0),
            entry_ops[1] == Op::AppendFnParams(0),
            forall|k: int|
                0 <= k < fun.args@.len() ==> #[trigger] entry_ops[2 + k] == (Op::BlockParam {
                    block: 0,
                    index: k as usize,
                }),
            nlabels <= st.n_blocks,
            st.sealed@.len() == st.n_blocks,
            forall|b: int|
                0 <= b < st.sealed@.len() ==> (#[trigger] st.sealed@[b] == !(bi <= b
                    < nlabels)),
            fun.blocks@.len() == nlabels,
            env@.len() == clen as nat,
            old(ctx).vars@.len() <= ctx.vars@.len(),
            forall|k2: int|
                0 <= k2 < old(ctx).vars@.len() ==> ctx.vars@[k2] == #[trigger] old(
                    ctx,
                ).vars@[k2],
        decreases nlabels - bi,
    {
        let gvb: Ghost<Seq<crate::ctx::Var>> = Ghost(ctx.vars@);
        switch_to_block(&mut st, bi, gvb);
        proof {
            assert(unsealed_shape(st, bi + 1, nlabels as int));
        }
        let blk = &fun.blocks[bi];
        let mut si: usize = 0;
        while si < blk.stmts.len()
            invariant
                si <= blk.stmts@.len(),
                st_inv(st),
                p5_slot_widths(st.ops@, ctx.vars@),
                seq_ext(entry_ops, st.ops@),
                unsealed_shape(st, bi + 1, nlabels as int),
                (st.cur as int) < st.n_blocks,
                st.cur < bi + 1 || st.cur >= nlabels,
                nlabels <= st.n_blocks,
                st.sealed@.len() == st.n_blocks,
                env@.len() == clen as nat,
                old(ctx).vars@.len() <= ctx.vars@.len(),
                forall|k2: int|
                    0 <= k2 < old(ctx).vars@.len() ==> ctx.vars@[k2] == #[trigger] old(
                        ctx,
                    ).vars@[k2],
            decreases blk.stmts@.len() - si,
        {
            match &blk.stmts[si] {
                Stmt::Asgn(asgn) => {
                    let rv = codegen_expr(
                        ctx,
                        &env,
                        &mut st,
                        &asgn.rhs,
                        Ghost((bi + 1) as int),
                        Ghost(nlabels as int),
                    );
                    let val = match rv {
                        Ok(Some(v)) => v,
                        Ok(None) => {
                            return Err(CgError::BadVar(asgn.lhs));
                        },
                        Err(e) => {
                            return Err(e);
                        },
                    };
                    if (asgn.lhs as usize) >= ctx.len() {
                        return Err(CgError::BadVar(asgn.lhs));
                    }
                    let gva: Ghost<Seq<crate::ctx::Var>> = Ghost(ctx.vars@);
                    let ty = rep_type_abi(ctx.var_rep_type(asgn.lhs));
                    emit(&mut st, Op::DeclareVar { slot: asgn.lhs, ty }, gva);
                    emit(&mut st, Op::DefVar { slot: asgn.lhs, val }, gva);
                },
                Stmt::Expr(e) => {
                    let rv = codegen_expr(
                        ctx,
                        &env,
                        &mut st,
                        e,
                        Ghost((bi + 1) as int),
                        Ghost(nlabels as int),
                    );
                    if let Err(e2) = rv {
                        return Err(e2);
                    }
                },
            }
            si += 1;
        }
        let rex = codegen_exit(ctx, &env, &mut st, fun, &blk.exit);
        if let Err(e2) = rex {
            return Err(e2);
        }
        let curb = st.cur;
        seal_block(&mut st, curb, Ghost(ctx.vars@));
        proof {
            assert forall|b: int|
                0 <= b < st.sealed@.len() implies (#[trigger] st.sealed@[b] == !(bi + 1 <= b
                < nlabels)) by {}
        }
        bi += 1;
    }
    proof {
        assert forall|b: int|
            0 <= b < st.n_blocks implies seal_count(st.ops@, b) == 1 by {
            assert(st.sealed@[b]);
        }
        assert forall|i: int|
            0 <= i < fun.args@.len() implies (fun.args@[i] as int) < ctx.vars@.len() && (
            #[trigger] params@[i]) == spec_rep_abi(ctx.vars@[fun.args@[i] as int].rep) by {
            assert(ctx.vars@[fun.args@[i] as int] == old(ctx).vars@[fun.args@[i] as int]);
        }
        assert(st.ops@[0] == entry_ops[0]);
        assert(st.ops@[1] == entry_ops[1]);
        assert forall|i: int|
            0 <= i < fun.args@.len() implies #[trigger] st.ops@[2 + i] == (Op::BlockParam {
            block: 0,
            index: i as usize,
        }) by {
            assert(st.ops@[2 + i] == entry_ops[2 + i]);
        }
    }
    Ok(FuncPlan { params, ret: retty, ops: st.ops, n_blocks: st.n_blocks })
}

/// The plan of a whole module: the imported built-in data symbols, the
/// declared functions with their plans, and which function the exported
/// entry stub calls.
#[derive(Debug)]
pub struct ModulePlan {
    /// Symbol names of the built-ins; a `DataAddr { data: i }` operation
    /// refers to entry `i`.
    pub data_names: Vec<String>,
    /// Function symbol names and plans; a `FuncAddr { func: i }`
    /// operation refers to entry `i`.
    pub funcs: Vec<(String, FuncPlan)>,
    /// Index of the user entry function among `funcs`.
    pub main_index: usize,
}

/// Plan a whole module: declare every built-in as an imported data
/// symbol and every function with its ABI signature, then plan each
/// function. The entry function must take no arguments and return a
/// word.
#[verifier::loop_isolation(false)]
#[verifier::rlimit(100)]
pub fn codegen(ctx: &mut Ctx, funs: &Vec<Fun>, main_id: VarId, builtins: &Vec<VarId>) -> (r:
    Result<ModulePlan, CgError>)
    ensures
        r matches Ok(p) ==> forall|k: int|
            0 <= k < p.funcs@.len() ==> p6_sealed_once(
                (#[trigger] p.funcs@[k]).1.ops@,
                p.funcs@[k].1.n_blocks as int,
            ),
        r matches Ok(p) ==> forall|k: int|
            0 <= k < p.funcs@.len() ==> p5_slot_widths(
                (#[trigger] p.funcs@[k]).1.ops@,
                final(ctx).vars@,
            ),
        r matches Ok(p) ==> p.funcs@.len() == funs@.len() && p.data_names@.len()
            == builtins@.len() && p.main_index < funs@.len(),
        r matches Ok(p) ==> funs@[p.main_index as int].name == main_id && funs@[
            p.main_index as int
        ].args@.len() == 0 && funs@[p.main_index as int].return_type == RepType::Word,
        r matches Ok(p) ==> forall|i: int|
            0 <= i < builtins@.len() ==> (builtins@[i] as int) < old(ctx).vars@.len() && (
            #[trigger] p.data_names@[i])@ == old(ctx).vars@[builtins@[i] as int].symbol_name@,
        r matches Ok(p) ==> forall|i: int|
            0 <= i < funs@.len() ==> (funs@[i].name as int) < old(ctx).vars@.len() && (
            #[trigger] p.funcs@[i]).0@ == old(ctx).vars@[funs@[i].name as int].name@,
        r matches Ok(p) ==> forall|k: int|
            0 <= k < funs@.len() ==> (#[trigger] p.funcs@[k]).1.ret == spec_rep_abi(
                funs@[k].return_type,
            ) && p.funcs@[k].1.params@.len() == funs@[k].args@.len(),
        r matches Ok(p) ==> forall|k: int, i: int|
            0 <= k < funs@.len() && 0 <= i < funs@[k].args@.len() ==> (funs@[k].args@[
                i
            ] as int) < final(ctx).vars@.len() && (#[trigger] p.funcs@[k].1.params@[i])
                == spec_rep_abi(final(ctx).vars@[funs@[k].args@[i] as int].rep),
{
    let ghost vars0 = ctx.vars@;
    let mut env: Env = Vec::new();
    let mut k: usize = 0;
    let clen = ctx.len();
    while k < clen
        invariant
            k <= clen,
            env@.len() == k as nat,
        decreases clen - k,
    {
        env.push(None);
        k += 1;
    }
    let mut data_names: Vec<String> = Vec::new();
    let mut bi: usize = 0;
    while bi < builtins.len()
        invariant
            bi <= builtins@.len(),
            env@.len() == clen as nat,
            data_names@.len() == bi as nat,
            ctx.vars@ == vars0,
            forall|i: int| 0 <= i < bi ==> ((#[trigger] builtins@[i]) as int) < vars0.len(),
            forall|i: int|
                0 <= i < bi ==> (#[trigger] data_names@[i])@ == vars0[builtins@[
                    i
                ] as int].symbol_name@,
        decreases builtins@.len() - bi,
    {
        let b = builtins[bi];
        if (b as usize) >= ctx.len() || (b as usize) >= env.len() {
            return Err(CgError::BadVar(b));
        }
        env.set(b as usize, Some(VarVal::DataRef(bi)));
        let ghost names_pre = data_names@;
        let sn = ctx.get_var(b).symbol_name.clone();
        proof {
            assert(sn@ == vars0[b as int].symbol_name@);
        }
        data_names.push(sn);
        proof {
            assert forall|i: int|
                0 <= i < bi + 1 implies (#[trigger] data_names@[i])@ == vars0[builtins@[
                    i
                ] as int].symbol_name@ by {
                if i < bi {
                    assert(data_names@[i] == names_pre[i]);
                }
            }
        }
        bi += 1;
    }
    let mut main_index: Option<usize> = None;
    let mut fi: usize = 0;
    while fi < funs.len()
        invariant
            fi <= funs@.len(),
            env@.len() == clen as nat,
            ctx.vars@ == vars0,
            forall|i: int|
                0 <= i < fi ==> ((#[trigger] funs@[i]).name as int) < vars0.len(),
            main_index matches Some(i) ==> (i < funs@.len() && funs@[i as int].name == main_id
                && funs@[i as int].args@.len() == 0 && funs@[i as int].return_type
                == RepType::Word),
        decreases funs@.len() - fi,
    {
        let name = funs[fi].name;
        if (name as usize) >= ctx.len() || (name as usize) >= env.len() {
            return Err(CgError::BadVar(name));
        }
        if name == main_id {
            if funs[fi].args.len() != 0 {
                return Err(CgError::NoMain);
            }
            match funs[fi].return_type {
                RepType::Word => {},
                RepType::Float => {
                    return Err(CgError::NoMain);
                },
            }
            main_index = Some(fi);
        }
        env.set(name as usize, Some(VarVal::FunRef(fi)));
        fi += 1;
    }
    let main_index = match main_index {
        Some(i) => i,
        None => {
            return Err(CgError::NoMain);
        },
    };
    let mut funcs: Vec<(String, FuncPlan)> = Vec::new();
    let mut fi2: usize = 0;
    while fi2 < funs.len()
        invariant
            fi2 <= funs@.len(),
            funcs@.len() == fi2 as nat,
            env@.len() == clen as nat,
            forall|k2: int|
                0 <= k2 < funcs@.len() ==> p6_sealed_once(
                    (#[trigger] funcs@[k2]).1.ops@,
                    funcs@[k2].1.n_blocks as int,
                ),
            forall|k2: int|
                0 <= k2 < funcs@.len() ==> p5_slot_widths(
                    (#[trigger] funcs@[k2]).1.ops@,
                    ctx.vars@,
                ),
            vars0.len() <= ctx.vars@.len(),
            forall|k: int|
                0 <= k < vars0.len() ==> #[trigger] ctx.vars@[k] == vars0[k],
            forall|i: int|
                0 <= i < funs@.len() ==> ((#[trigger] funs@[i]).name as int) < old(
                    ctx,
                ).vars@.len(),
            forall|i: int|
                0 <= i < funcs@.len() ==> (funs@[i].name as int) < vars0.len() && (
                #[trigger] funcs@[i]).0@ == vars0[funs@[i].name as int].name@,
            forall|k2: int|
                0 <= k2 < funcs@.len() ==> (#[trigger] funcs@[k2]).1.ret == spec_rep_abi(
                    funs@[k2].return_type,
                ) && funcs@[k2].1.params@.len() == funs@[k2].args@.len(),
            forall|k2: int, i: int|
                0 <= k2 < funcs@.len() && 0 <= i < funs@[k2].args@.len() ==> (funs@[
                    k2
                ].args@[i] as int) < ctx.vars@.len() && (#[trigger] funcs@[k2].1.params@[i])
                    == spec_rep_abi(ctx.vars@[funs@[k2].args@[i] as int].rep),
            main_index < funs@.len() && funs@[main_index as int].name == main_id && funs@[
                main_index as int
            ].args@.len() == 0 && funs@[main_index as int].return_type == RepType::Word,
        decreases funs@.len() - fi2,
    {
        let name = funs[fi2].name;
        if (name as usize) >= ctx.len() {
            return Err(CgError::BadVar(name));
        }
        let fname = ctx.get_var(name).name.clone();
        let ghost vars_pre = ctx.vars@;
        let plan = match codegen_fun(ctx, &env, &funs[fi2]) {
            Ok(p) => p,
            Err(e2) => {
                return Err(e2);
            },
        };
        proof {
            assert forall|k2: int|
                0 <= k2 < funcs@.len() implies p5_slot_widths(
                (#[trigger] funcs@[k2]).1.ops@,
                ctx.vars@,
            ) by {
                lemma_p5_grow(funcs@[k2].1.ops@, vars_pre, ctx.vars@);
            }
            assert forall|k: int|
                0 <= k < vars0.len() implies #[trigger] ctx.vars@[k] == vars0[k] by {
                assert(ctx.vars@[k] == vars_pre[k]);
            }
            assert((funs@[fi2 as int].name as int) < vars0.len());
            assert(fname@ == vars0[funs@[fi2 as int].name as int].name@);
            assert forall|k2: int, i: int|
                0 <= k2 < funcs@.len() && 0 <= i < funs@[k2].args@.len() implies (funs@[
                k2
            ].args@[i] as int) < ctx.vars@.len() && (#[trigger] funcs@[k2].1.params@[i])
                == spec_rep_abi(ctx.vars@[funs@[k2].args@[i] as int].rep) by {
                assert(ctx.vars@[funs@[k2].args@[i] as int] == vars_pre[funs@[k2].args@[
                    i
                ] as int]);
            }
        }
        funcs.push((fname, plan));
        fi2 += 1;
    }
    Ok(ModulePlan { data_names, funcs, main_index })
}

} // verus!
