//! Lowering of typed expressions and patterns to the register IR.

use crate::bytecode::ir::{self, BlockId, Inst, IrBuilder, Reg, StackSlotId, Terminator};
use crate::bytecode::place::{load_instrs, place_ok, store_instr};
use crate::bytecode::value::{value_ok, write_instrs, write_regs};
use crate::bytecode::place::Place;
use crate::bytecode::value::Value;
use crate::layout::{has_layout, try_get_size, type_size};
use crate::parser::ast::{self, ExprData, ExprId, File, Ident, Op, PatternData, PatternId};
use crate::tp::{Type, TypeV};
use crate::typecheck::check::{arith, arith_ty, in_arith, pat_vars, pats_vars};
use crate::typecheck::{Coercion, TypeError};
use vstd::prelude::*;

verus! {

/// Why a function body cannot be lowered.
#[derive(Debug, Clone, Copy, PartialEq, Eq, Structural)]
pub enum LowerError {
    /// The body still holds an erroneous expression.
    ErrorExpr,
    /// An expression without an inferred type.
    MissingType,
    /// A type that has no layout (an error type, or one too large).
    NoLayout,
    /// A variable that is not in scope.
    UnboundVariable,
    /// A value used as a scalar that has none (`()`).
    NotScalar,
    /// A value used as a memory place that is not one.
    NotAPlace,
    /// Indexing into something that is neither an array nor a slice.
    NotIndexable,
    /// A tuple pattern against a value that is not a tuple.
    NotATuple,
    /// A refutable pattern outside a `match`.
    RefutablePattern,
    /// A coercion applied to an expression of the wrong type.
    BadCoercion,
    /// Division has no instruction.
    UnsupportedDivision,
    /// More registers or cells than `usize` can count.
    TooLarge,
    /// A function without a body that is not declared external.
    MissingBody,
    /// The body could not be type checked.
    Typing(TypeError),
}


/// What lowering the expression `e` to `v` owes, by the form of `e`: the
/// expression has a type with a layout; a number stays a number, an
/// assignment has no value, and an expression of the other forms lives at
/// a place (the destination, where one is given and the value is built in
/// memory).
pub open spec fn lowered(f: File, types: Seq<Option<Type>>, e: ExprId, dest: Option<Place>, v: Value) -> bool {
    &&& types[e.0 as int] matches Some(t) && has_layout(t@)
    &&& match f.exprs@[e.0 as int].0 {
        ExprData::Error => false,
        ExprData::Num(n) => v == Value::Int(n),
        ExprData::Assign(_, _) => v == Value::Unit,
        ExprData::BinOp(op, _, _) => !(op is Div) && v is LVal,
        ExprData::True => v is LVal,
        ExprData::False => v is LVal,
        ExprData::AddressOf(_) => v is LVal,
        ExprData::Deref(_) => v is LVal,
        ExprData::Index(_, _) => v is LVal,
        ExprData::FnCall(_, _) => v is LVal,
        ExprData::Tuple(_) => v is LVal && (dest matches Some(p) ==> v == Value::LVal(p)),
        ExprData::Array(_) => v is LVal && (dest matches Some(p) ==> v == Value::LVal(p)),
        ExprData::Match(_, _) => v is LVal && (dest matches Some(p) ==> v == Value::LVal(p)),
        _ => true,
    }
}


/// What lowering `e` gives where that follows from the context alone: an
/// erroneous expression fails, and a variable is the value bound to its name
/// in the innermost scope that binds it, or fails when none does.
pub open spec fn read_result(ctx: LowerCtx, e: ExprId, res: Result<Value, LowerError>) -> bool {
    match ctx.file.exprs@[e.0 as int].0 {
        ExprData::Error => res == Err::<Value, LowerError>(LowerError::ErrorExpr),
        ExprData::Var(id) => match binding_of(ctx.scopes@, *ctx.file, ctx.file.idents@[id.0 as int]@) {
            None => res == Err::<Value, LowerError>(LowerError::UnboundVariable),
            Some(b) => res matches Ok(v) ==> v == b,
        },
        _ => true,
    }
}

/// What lowering `e` gives where it needs no lowering of other
/// expressions, from the context `before` to `after`, with no destination:
/// a number is that number and changes nothing; a literal `true` or `false`
/// is loaded into a new register, or fails when no register is left; a
/// bound variable is its storage and changes nothing. Assigning to a
/// number fails, as the number is no place, and a division is refused.
pub open spec fn leaf_lowered<'a>(before: LowerCtx<'a>, after: LowerCtx<'a>, e: ExprId, dest: Option<Place>, res: Result<Value, LowerError>) -> bool {
    match before.file.exprs@[e.0 as int].0 {
        ExprData::Num(n) => dest is None ==> res == Ok::<Value, LowerError>(Value::Int(n)) && after == before,
        ExprData::True => dest is None ==> literal_loaded(before, after, true, res),
        ExprData::False => dest is None ==> literal_loaded(before, after, false, res),
        ExprData::Var(id) => dest is None && binding_of(before.scopes@, *before.file, before.file.idents@[id.0 as int]@) is Some
            ==> after == before,
        ExprData::BinOp(op, _, _) => (dest is None ==> (res matches Ok(v) ==> binop_emitted(after.builder, op, v)))
            && (op is Div ==> res == Err::<Value, LowerError>(LowerError::UnsupportedDivision)),
        ExprData::FnCall(name, args) => dest is None ==> call_emitted(before, after, e, name, args@.len(), res)
            && args_passed(before, after, e, args@, res),
        ExprData::Index(arr, id) => dest is None ==> index_emitted(before, after, e, arr, id, res),
        ExprData::Deref(e1) => dest is None ==> deref_emitted(before, after, e1, res),
        ExprData::AddressOf(e1) => dest is None ==> address_emitted(before, after, e1, res),
        ExprData::Assign(e1, e2) => (before.file.exprs@[e1.0 as int].0 is Num && before.coercions@[e1.0 as int] is None
            ==> res == Err::<Value, LowerError>(match lowering_refused(before.types@, e1) {
                Some(err) => err,
                None => LowerError::NotAPlace,
            })) && assign_emitted(before, after, e1, e2, res),
        ExprData::Tuple(es) => aggregate_placed(before, after, e, dest, res) && elements_written(before, after, es@, dest, res),
        ExprData::Array(es) => aggregate_placed(before, after, e, dest, res) && elements_written(before, after, es@, dest, res),
        _ => true,
    }
}

/// The instruction an operator becomes, writing into `r` from `a` and `b`;
/// division has none.
pub open spec fn binop_inst(op: Op, r: Reg, a: Reg, b: Reg) -> Option<Inst> {
    match op {
        Op::Add => Some(Inst::Add(r, a, b)),
        Op::Sub => Some(Inst::Sub(r, a, b)),
        Op::Mul => Some(Inst::Mul(r, a, b)),
        Op::Div => None,
        Op::Le => Some(Inst::CmpLe(r, a, b)),
        Op::Eq => Some(Inst::CmpEq(r, a, b)),
    }
}

/// The value of an operation is a register that the last instruction of the
/// current block computes with the operator from two registers.
pub open spec fn binop_emitted(after: IrBuilder, op: Op, v: Value) -> bool {
    v matches Value::LVal(Place::Reg(r)) && after.current_instrs().len() > 0 && exists|a: Reg, b: Reg|
        binop_inst(op, r, a, b) == Some(#[trigger] after.current_instrs().last())
}

/// A call without a destination ends the current block with a call of the
/// named function, with one argument register per argument; a result of
/// more than one cell goes to a new stack slot whose address, computed just
/// before the call, is passed as an extra first argument; a smaller one is
/// the call's result register.
pub open spec fn call_emitted<'a>(before: LowerCtx<'a>, after: LowerCtx<'a>, e: ExprId, name: Ident, nargs: nat, res: Result<Value, LowerError>) -> bool {
    res is Ok ==> {
        let is = after.builder.current_instrs();
        &&& is.len() > 0
        &&& is.last() matches Inst::FnCall(ret, callee, vals)
        &&& callee@ == before.file.idents@[name.0 as int]@
        &&& before.types@[e.0 as int] matches Some(t)
        &&& type_size(t@) <= 1 ==> vals@.len() == nargs && res == Ok::<Value, LowerError>(Value::LVal(Place::Reg(ret)))
        &&& type_size(t@) > 1 ==> vals@.len() == nargs + 1 && (res->Ok_0 matches Value::LVal(Place::Stack { slot, offset })
                && offset == 0 && slot.0 >= before.builder.stack_slots@.len()
                && after.builder.stack_slots@[slot.0 as int].size == type_size(t@))
                && is.len() >= 2 && is[is.len() - 2] == (res->Ok_0)->LVal_0.addr_instr(vals@[0])
    }
}

/// Where the arguments are simple one-cell values with the registers they
/// take left, a call without a destination evaluates them in order, each
/// into its register (the code of `args_code`), and passes those registers
/// in that order, after the hidden result address where there is one; the
/// call's own result register is the next one. Where that register is
/// left too and the result takes one cell at most, the call succeeds.
pub open spec fn args_passed<'a>(before: LowerCtx<'a>, after: LowerCtx<'a>, e: ExprId, args: Seq<ExprId>, res: Result<Value, LowerError>) -> bool {
    let (code, regs, n) = args_code(before, args, before.builder.next_reg as nat);
    let is = after.builder.current_instrs();
    let k = (before.builder.current_instrs().len() + code.len()) as int;
    args_fit(before, args, before.builder.next_reg as nat) ==> {
        &&& n < usize::MAX && simple_size(before, e) <= 1 ==> res == Ok::<Value, LowerError>(Value::LVal(Place::Reg(Reg(n as usize))))
        &&& res is Ok ==> {
            &&& is.len() > k
            &&& is.subrange(0, k) == before.builder.current_instrs() + code
            &&& is.last() matches Inst::FnCall(ret, _, vals)
            &&& ret == Reg(n as usize)
            &&& vals@.len() >= args.len()
            &&& vals@.subrange(vals@.len() - args.len(), vals@.len() as int) == regs
        }
    }
}

/// An element `arr[id]` without a destination, where the index and the
/// indexed value are simple and the registers they take are left: the
/// index's code and its load into a register `x` come first, then the
/// element size goes into a new register `s` and the offset `s * x` into
/// the register after it, `o`; the current block ends by adding `o` to the
/// base address, and the element is the cell at that address.
pub open spec fn index_emitted<'a>(before: LowerCtx<'a>, after: LowerCtx<'a>, e: ExprId, arr: ExprId, id: ExprId, res: Result<Value, LowerError>) -> bool {
    let n0 = before.builder.next_reg as nat;
    let (c, iv, n1) = simple_code(before, id, n0);
    let (l, x, n2) = scalar_load(iv, n1);
    let k = (before.builder.current_instrs().len() + c.len() + l.len()) as int;
    let is = after.builder.current_instrs();
    simple_expr(before, id) && simple_expr(before, arr)
        && n0 + regs_needed(*before.file, id) + regs_needed(*before.file, arr) + 6 <= usize::MAX ==> (res matches Ok(v) ==> {
        &&& v matches Value::LVal(Place::DynamicPtr { base, offset }) && offset == 0
            && is.len() > k + 2 && is.last() == Inst::Add(base, base, Reg((n2 + 1) as usize))
        &&& is.subrange(0, k + 2) == before.builder.current_instrs() + c + l
            + seq![Inst::LoadInt(Reg(n2 as usize), simple_size(before, e)), Inst::Mul(Reg((n2 + 1) as usize), Reg(n2 as usize), x)]
    })
}

/// A dereference `*e1` without a destination, where `e1` is simple and the
/// registers it takes are left: the pointer's code and its load into a
/// register come first, and the value is the cell that register points to.
pub open spec fn deref_emitted<'a>(before: LowerCtx<'a>, after: LowerCtx<'a>, e1: ExprId, res: Result<Value, LowerError>) -> bool {
    let n0 = before.builder.next_reg as nat;
    let (c, v1, n1) = simple_code(before, e1, n0);
    let (l, x, n2) = scalar_load(v1, n1);
    simple_expr(before, e1) && n0 + regs_needed(*before.file, e1) + 2 <= usize::MAX ==> {
        &&& res == Ok::<Value, LowerError>(Value::LVal(Place::DynamicPtr { base: x, offset: 0 }))
        &&& after.builder.appended_regs(&before.builder, c + l)
        &&& after.builder.next_reg == n2
    }
}

/// An address `&e1` without a destination, where `e1` is simple, lives in
/// memory and the registers it takes are left: `e1`'s code comes first,
/// then its address goes into the next free register, which is the value.
pub open spec fn address_emitted<'a>(before: LowerCtx<'a>, after: LowerCtx<'a>, e1: ExprId, res: Result<Value, LowerError>) -> bool {
    let n0 = before.builder.next_reg as nat;
    let (c, v1, n1) = simple_code(before, e1, n0);
    simple_expr(before, e1) && n0 + regs_needed(*before.file, e1) + 2 <= usize::MAX
        && (v1 matches Value::LVal(q) && !(q is Reg)) ==> {
        &&& res == Ok::<Value, LowerError>(Value::LVal(Place::Reg(Reg(n1 as usize))))
        &&& after.builder.appended_regs(&before.builder, c + seq![v1->LVal_0.addr_instr(Reg(n1 as usize))])
        &&& after.builder.next_reg == n1 + 1
    }
}

/// An assignment `e1 = e2`, where both sides are simple and the registers
/// they take are left and the target is a place: the target's code, then
/// the value's code, then the copy of the value into the target's place;
/// the assignment has no value.
pub open spec fn assign_emitted<'a>(before: LowerCtx<'a>, after: LowerCtx<'a>, e1: ExprId, e2: ExprId, res: Result<Value, LowerError>) -> bool {
    let n0 = before.builder.next_reg as nat;
    let (c1, v1, n1) = simple_code(before, e1, n0);
    let (c2, v2, n2) = simple_code(before, e2, n1);
    simple_expr(before, e1) && simple_expr(before, e2)
        && n0 + regs_needed(*before.file, e1) + regs_needed(*before.file, e2) + 4 <= usize::MAX
        && (v1 matches Value::LVal(q) && before.place_ok(q)) ==> {
        &&& res == Ok::<Value, LowerError>(Value::Unit)
        &&& after.builder.appended_regs(&before.builder, c1 + c2 + write_instrs(v2, v1->LVal_0, simple_size(before, e2), n2 as usize))
    }
}

/// `b1` only added instructions to the current block of `b0`.
pub open spec fn extends_block(b0: IrBuilder, b1: IrBuilder) -> bool {
    &&& b1.current_block == b0.current_block
    &&& b1.current_instrs().len() >= b0.current_instrs().len()
    &&& b1.current_instrs().subrange(0, b0.current_instrs().len() as int) == b0.current_instrs()
}

pub proof fn lemma_extends_appended(b0: IrBuilder, b1: IrBuilder, x: Seq<Inst>)
    requires
        b1.appended_regs(&b0, x),
    ensures
        extends_block(b0, b1),
{
    assert(b1.current_instrs().subrange(0, b0.current_instrs().len() as int) =~= b0.current_instrs());
}

pub proof fn lemma_extends_trans(b0: IrBuilder, b1: IrBuilder, b2: IrBuilder)
    requires
        extends_block(b0, b1),
        extends_block(b1, b2),
    ensures
        extends_block(b0, b2),
{
    assert(b2.current_instrs().subrange(0, b0.current_instrs().len() as int)
        =~= b1.current_instrs().subrange(0, b0.current_instrs().len() as int));
}

/// A tuple or array without a destination is built in a new stack slot
/// with as many cells as its type takes.
pub open spec fn aggregate_placed<'a>(before: LowerCtx<'a>, after: LowerCtx<'a>, e: ExprId, dest: Option<Place>, res: Result<Value, LowerError>) -> bool {
    dest is None && res is Ok ==> {
        &&& res == Ok::<Value, LowerError>(Value::LVal(Place::Stack { slot: StackSlotId(before.builder.stack_slots@.len() as usize), offset: 0 }))
        &&& before.types@[e.0 as int] matches Some(t)
            && after.builder.stack_slots@[before.builder.stack_slots@.len() as int].size == type_size(t@)
    }
}

/// The elements of a tuple or array, where they are simple and fit, are
/// written in order at their offsets from the place the aggregate is built
/// at (the destination, or else the new stack slot), with exactly the code
/// of `elems_code`; the value is that place.
pub open spec fn elements_written<'a>(before: LowerCtx<'a>, after: LowerCtx<'a>, es: Seq<ExprId>, dest: Option<Place>, res: Result<Value, LowerError>) -> bool {
    let q = match dest {
        Some(d) => d,
        None => Place::Stack { slot: StackSlotId(before.builder.stack_slots@.len() as usize), offset: 0 },
    };
    let (code, n) = elems_code(before, es, q, before.builder.next_reg as nat);
    elems_fit(before, es, q, before.builder.next_reg as nat) ==> {
        &&& res == Ok::<Value, LowerError>(Value::LVal(q))
        &&& after.scopes == before.scopes
        &&& after.builder.current_block == before.builder.current_block
        &&& after.builder.current_instrs() == before.builder.current_instrs() + code
        &&& after.builder.next_reg == n
    }
}

/// The literal `b` was loaded into the next free register, the value is
/// that register; without a free register lowering fails.
pub open spec fn literal_loaded<'a>(before: LowerCtx<'a>, after: LowerCtx<'a>, b: bool, res: Result<Value, LowerError>) -> bool {
    if before.builder.next_reg < usize::MAX {
        &&& res == Ok::<Value, LowerError>(Value::LVal(Place::Reg(Reg(before.builder.next_reg))))
        &&& after.builder.next_reg == before.builder.next_reg + 1
        &&& after.builder.appended_regs(&before.builder, seq![Inst::LoadBool(Reg(before.builder.next_reg), b)])
    } else {
        res == Err::<Value, LowerError>(LowerError::TooLarge)
    }
}

/// Binding a variable pattern: where the type has a layout and two more
/// registers fit, it succeeds; the value is then copied into a new stack
/// slot of the type's size, and the name is bound to that slot last in the
/// innermost scope.
pub open spec fn var_stored<'a>(before: LowerCtx<'a>, after: LowerCtx<'a>, name: Ident, s: Value, tp: TypeV, res: Result<(), LowerError>) -> bool {
    let q = Place::Stack { slot: StackSlotId(before.builder.stack_slots@.len() as usize), offset: 0 };
    &&& has_layout(tp) && before.builder.next_reg + 2 <= usize::MAX ==> res is Ok
    &&& res is Ok ==> {
        &&& after.builder.next_reg <= before.builder.next_reg + 2
        &&& after.builder.stack_slots@[before.builder.stack_slots@.len() as int].size == type_size(tp)
        &&& after.scopes@.last()@.last() == (name, Value::LVal(q))
        &&& after.builder.current_instrs() == before.builder.current_instrs()
            + write_instrs(s, q, type_size(tp) as usize, before.builder.next_reg)
    }
}

/// Matching a literal pattern: the scrutinee `s` is made a register in the
/// block that was current, which then ends by branching on that register,
/// to a new, empty block when it equals `b` and to `fail` otherwise; the new
/// block is now current.
pub open spec fn literal_tested<'a>(before: LowerCtx<'a>, after: LowerCtx<'a>, b: bool, fail: BlockId, s: Value) -> bool {
    let ok = BlockId(before.builder.blocks@.len() as usize);
    let c = before.builder.current_block;
    let (load, reg, _) = scalar_load(s, before.builder.next_reg as nat);
    &&& after.builder.blocks@[c.0 as int].instrs@ == before.builder.current_instrs() + load
    &&& after.builder.blocks@[c.0 as int].terminator matches Terminator::BranchIf { cond, .. } && cond == reg
    &&& after.builder.blocks@.len() == before.builder.blocks@.len() + 1
    &&& after.builder.current_block == ok
    &&& after.builder.blocks@[ok.0 as int].instrs@ == Seq::<Inst>::empty()
    &&& after.builder.blocks@[ok.0 as int].terminator == ir::default_terminator()
    &&& after.builder.blocks@[c.0 as int].terminator matches Terminator::BranchIf { cond, th, el }
        && (if b { th == ok && el == fail } else { th == fail && el == ok })
}

/// Expressions built from numbers, literals, variables bound to a value
/// and operators other than division, each with a type that has a layout
/// and without a coercion.
pub open spec fn simple_expr(ctx: LowerCtx, e: ExprId) -> bool
    decreases e.0,
{
    if e.0 >= ctx.file.exprs@.len() || e.0 >= ctx.types@.len() || e.0 >= ctx.coercions@.len() {
        false
    } else {
        &&& lowering_refused(ctx.types@, e) is None
        &&& ctx.coercions@[e.0 as int] is None
        &&& match ctx.file.exprs@[e.0 as int].0 {
            ExprData::Num(_) => true,
            ExprData::True => true,
            ExprData::False => true,
            ExprData::Var(id) => id.0 < ctx.file.idents@.len()
                && (binding_of(ctx.scopes@, *ctx.file, ctx.file.idents@[id.0 as int]@) matches Some(b) && !(b is Unit)),
            ExprData::BinOp(op, e1, e2) => !(op is Div) && e1.0 < e.0 && e2.0 < e.0 && simple_expr(ctx, e1) && simple_expr(ctx, e2),
            _ => false,
        }
    }
}

/// Whether an expression is simple depends only on the file, the inferred
/// types and coercions, and the scopes.
pub proof fn lemma_simple_frame(a: LowerCtx, b: LowerCtx, e: ExprId)
    requires
        a.file == b.file,
        a.types == b.types,
        a.coercions == b.coercions,
        a.scopes == b.scopes,
    ensures
        simple_expr(a, e) == simple_expr(b, e),
    decreases e.0,
{
    if e.0 < a.file.exprs@.len() {
        if let ExprData::BinOp(_, e1, e2) = a.file.exprs@[e.0 as int].0 {
            if e1.0 < e.0 && e2.0 < e.0 {
                lemma_simple_frame(a, b, e1);
                lemma_simple_frame(a, b, e2);
            }
        }
    }
}

/// The registers lowering a simple expression may take.
pub open spec fn regs_needed(f: File, e: ExprId) -> nat
    decreases e.0,
{
    if e.0 >= f.exprs@.len() {
        0
    } else {
        match f.exprs@[e.0 as int].0 {
            ExprData::True => 1,
            ExprData::False => 1,
            ExprData::BinOp(_, e1, e2) => if e1.0 < e.0 && e2.0 < e.0 {
                regs_needed(f, e1) + regs_needed(f, e2) + 3
            } else {
                0
            },
            _ => 0,
        }
    }
}

/// Lowering a simple expression succeeds where the registers it may take
/// are left: it emits `simple_code`, followed, with a destination, by the
/// write of the value into it; it keeps the scopes.
#[verifier::opaque]
pub open spec fn simple_lowered<'a>(before: LowerCtx<'a>, after: LowerCtx<'a>, e: ExprId, dest: Option<Place>, res: Result<Value, LowerError>) -> bool {
    let (code, v, n) = simple_code(before, e, before.builder.next_reg as nat);
    simple_expr(before, e) && before.builder.next_reg + regs_needed(*before.file, e) + 2 <= usize::MAX ==> {
        &&& res == Ok::<Value, LowerError>(v)
        &&& !(v is Unit)
        &&& after.scopes == before.scopes
        &&& n <= before.builder.next_reg + regs_needed(*before.file, e)
        &&& match dest {
            None => after.builder.appended_regs(&before.builder, code) && after.builder.next_reg == n,
            Some(p) => after.builder.appended_regs(
                &before.builder,
                code + write_instrs(v, p, simple_size(before, e), n as usize),
            ) && after.builder.next_reg == n + write_regs(v, p),
        }
    }
}

/// Of an expression that is not simple, `simple_lowered` says nothing.
pub proof fn lemma_simple_vacuous(before: LowerCtx, e: ExprId)
    requires
        !simple_expr(before, e),
    ensures
        forall|after: LowerCtx, d: Option<Place>, res: Result<Value, LowerError>| #[trigger] simple_lowered(before, after, e, d, res),
{
    reveal(simple_lowered);
}

/// An arithmetic expression whose nodes have their arithmetic types and no
/// coercion is simple.
pub proof fn lemma_arith_simple(ctx: LowerCtx, e: ExprId)
    requires
        arith(*ctx.file, e),
        ctx.types@.len() == ctx.file.exprs@.len(),
        ctx.coercions@.len() == ctx.file.exprs@.len(),
        forall|j: int| 0 <= j < ctx.file.exprs@.len() && in_arith(*ctx.file, e, j)
            ==> ((#[trigger] ctx.types@[j]) matches Some(t) && t@ == arith_ty(*ctx.file, j)),
        forall|j: int| 0 <= j < ctx.coercions@.len() ==> (#[trigger] ctx.coercions@[j]) is None,
    ensures
        simple_expr(ctx, e),
    decreases e.0,
{
    assert(in_arith(*ctx.file, e, e.0 as int));
    assert(ctx.types@[e.0 as int] matches Some(t) && has_layout(t@));
    if let ExprData::BinOp(_, e1, e2) = ctx.file.exprs@[e.0 as int].0 {
        assert forall|j: int| 0 <= j < ctx.file.exprs@.len() && in_arith(*ctx.file, e1, j)
            implies ((#[trigger] ctx.types@[j]) matches Some(t) && t@ == arith_ty(*ctx.file, j)) by {
            assert(in_arith(*ctx.file, e, j));
        }
        assert forall|j: int| 0 <= j < ctx.file.exprs@.len() && in_arith(*ctx.file, e2, j)
            implies ((#[trigger] ctx.types@[j]) matches Some(t) && t@ == arith_ty(*ctx.file, j)) by {
            assert(in_arith(*ctx.file, e, j));
        }
        lemma_arith_simple(ctx, e1);
        lemma_arith_simple(ctx, e2);
    }
}

/// The cells the value of `e` takes, by its inferred type.
pub open spec fn simple_size(ctx: LowerCtx, e: ExprId) -> usize {
    match ctx.types@[e.0 as int] {
        Some(t) => type_size(t@) as usize,
        None => 0,
    }
}

/// What making the scalar value `v` available in a register emits when the
/// next free register is `n`: the instructions, the register and the next
/// free register after them.
pub open spec fn scalar_load(v: Value, n: nat) -> (Seq<Inst>, Reg, nat) {
    match v {
        Value::Int(k) => (seq![Inst::LoadInt(Reg(n as usize), k)], Reg(n as usize), n + 1),
        Value::LVal(Place::Reg(r)) => (Seq::empty(), r, n),
        Value::LVal(p) => (load_instrs(p, Reg(n as usize)), Reg(n as usize), n + 1),
        Value::Unit => (Seq::empty(), Reg(0), n),
    }
}

/// The code of a simple expression when the next free register is `n`: the
/// instructions, the value, and the next free register after them. An
/// operator evaluates its left operand, makes it a register, then its right
/// operand, makes it a register, and computes into a new register.
pub open spec fn simple_code(ctx: LowerCtx, e: ExprId, n: nat) -> (Seq<Inst>, Value, nat)
    decreases e.0,
{
    if e.0 >= ctx.file.exprs@.len() {
        (Seq::empty(), Value::Unit, n)
    } else {
        match ctx.file.exprs@[e.0 as int].0 {
            ExprData::Num(k) => (Seq::empty(), Value::Int(k), n),
            ExprData::True => (seq![Inst::LoadBool(Reg(n as usize), true)], Value::LVal(Place::Reg(Reg(n as usize))), n + 1),
            ExprData::False => (seq![Inst::LoadBool(Reg(n as usize), false)], Value::LVal(Place::Reg(Reg(n as usize))), n + 1),
            ExprData::Var(id) => match binding_of(ctx.scopes@, *ctx.file, ctx.file.idents@[id.0 as int]@) {
                Some(b) => (Seq::empty(), b, n),
                None => (Seq::empty(), Value::Unit, n),
            },
            ExprData::BinOp(op, e1, e2) => if e1.0 < e.0 && e2.0 < e.0 {
                let (c1, v1, n1) = simple_code(ctx, e1, n);
                let (l1, a, n2) = scalar_load(v1, n1);
                let (c2, v2, n3) = simple_code(ctx, e2, n2);
                let (l2, b, n4) = scalar_load(v2, n3);
                match binop_inst(op, Reg(n4 as usize), a, b) {
                    Some(i) => (c1 + l1 + c2 + l2 + seq![i], Value::LVal(Place::Reg(Reg(n4 as usize))), n4 + 1),
                    None => (Seq::empty(), Value::Unit, n),
                }
            } else {
                (Seq::empty(), Value::Unit, n)
            },
            _ => (Seq::empty(), Value::Unit, n),
        }
    }
}

/// The code of a simple expression depends only on the file and the
/// scopes.
pub proof fn lemma_simple_code_frame(a: LowerCtx, b: LowerCtx, e: ExprId, n: nat)
    requires
        a.file == b.file,
        a.scopes == b.scopes,
    ensures
        simple_code(a, e, n) == simple_code(b, e, n),
    decreases e.0,
{
    if e.0 < a.file.exprs@.len() {
        if let ExprData::BinOp(_, e1, e2) = a.file.exprs@[e.0 as int].0 {
            if e1.0 < e.0 && e2.0 < e.0 {
                lemma_simple_code_frame(a, b, e1, n);
                let n2 = scalar_load(simple_code(a, e1, n).1, simple_code(a, e1, n).2).2;
                lemma_simple_code_frame(a, b, e2, n2);
            }
        }
    }
}

/// Appending in two steps is appending the two pieces in order.
pub proof fn lemma_appended_trans(b0: IrBuilder, b1: IrBuilder, b2: IrBuilder, x: Seq<Inst>, y: Seq<Inst>)
    requires
        b1.appended_regs(&b0, x),
        b2.appended_regs(&b1, y),
    ensures
        b2.appended_regs(&b0, x + y),
{
    assert(b2.current_instrs() =~= b0.current_instrs() + (x + y));
}

/// The fat pointer that a pointer to an array `e` of length `n` is coerced
/// to was built at `v`'s place: the current block ends by loading `n` and
/// storing the address and then the length into the place's two cells.
/// Without a destination the place is a new two-cell stack slot.
pub open spec fn fat_pointer_made(types: Seq<Option<Type>>, e: ExprId, dest: Option<Place>, slots_before: nat, after: IrBuilder, v: Value) -> bool {
    match types[e.0 as int] {
        Some(Type::Ptr { tp, .. }) => match *tp {
            Type::Array(n, _) => match v {
                Value::LVal(q) => {
                    let is = after.current_instrs();
                    &&& is.len() >= 3
                    &&& exists|t: Reg, l: Reg| is.subrange(is.len() - 3, is.len() as int)
                        == seq![Inst::LoadInt(l, n), store_instr(q, t), store_instr(q.spec_add_offset(1), l)]
                    &&& dest is None ==> (q matches Place::Stack { slot, offset } && offset == 0 && slot.0 >= slots_before
                        && after.stack_slots@[slot.0 as int].size == 2)
                },
                _ => false,
            },
            _ => false,
        },
        _ => false,
    }
}

/// Where the pointer coerced to a slice is a bound variable, the address
/// stored first into the slice's place is the variable's value, loaded into
/// a register as `scalar_load` does from the next free register.
pub open spec fn thin_pointer_stored<'a>(before: LowerCtx<'a>, after: LowerCtx<'a>, e: ExprId, v: Value) -> bool {
    match before.file.exprs@[e.0 as int].0 {
        ExprData::Var(id) => id.0 < before.file.idents@.len() ==> match binding_of(
            before.scopes@,
            *before.file,
            before.file.idents@[id.0 as int]@,
        ) {
            Some(b) => v matches Value::LVal(q) && after.builder.current_instrs().len() >= 2
                && after.builder.current_instrs()[after.builder.current_instrs().len() - 2]
                    == store_instr(q, scalar_load(b, before.builder.next_reg as nat).1),
            None => true,
        },
        _ => true,
    }
}

/// The slice that a pointer to an array `e` is coerced to lives at a place
/// (the destination, where one is given).
pub open spec fn slice_of_array_ptr(types: Seq<Option<Type>>, e: ExprId, dest: Option<Place>, v: Value) -> bool {
    &&& types[e.0 as int] matches Some(t) && (t matches Type::Ptr { tp, .. } && *tp is Array)
    &&& v is LVal
    &&& dest matches Some(p) ==> v == Value::LVal(p)
}


/// The latest binding of `name` in one scope.
pub open spec fn binding_in(s: Seq<(Ident, Value)>, f: File, name: Seq<char>) -> Option<Value>
    decreases s.len(),
{
    if s.len() == 0 {
        None
    } else if f.idents@[s.last().0.0 as int]@ == name {
        Some(s.last().1)
    } else {
        binding_in(s.drop_last(), f, name)
    }
}

/// Where `name` is stored: its binding in the innermost scope that binds it.
pub open spec fn binding_of(ss: Seq<Vec<(Ident, Value)>>, f: File, name: Seq<char>) -> Option<Value>
    decreases ss.len(),
{
    if ss.len() == 0 {
        None
    } else {
        match binding_in(ss.last()@, f, name) {
            Some(v) => Some(v),
            None => binding_of(ss.drop_last(), f, name),
        }
    }
}

/// The outcome is not a typing error: those only come from checking.
pub open spec fn from_lowering<T>(r: Result<T, LowerError>) -> bool {
    !(r matches Err(LowerError::Typing(_)))
}

/// Binding `x` to `storage` in the innermost scope (what `extend` does)
/// shadows: the name of `x` is then stored at `storage`, and every other
/// name where it was before.
pub proof fn lemma_binding_after_extend(
    before: Seq<Vec<(Ident, Value)>>,
    after: Seq<Vec<(Ident, Value)>>,
    f: File,
    x: Ident,
    storage: Value,
    name: Seq<char>,
)
    requires
        before.len() > 0,
        after.len() == before.len(),
        after.drop_last() == before.drop_last(),
        after.last()@ == before.last()@.push((x, storage)),
    ensures
        name == f.idents@[x.0 as int]@ ==> binding_of(after, f, name) == Some(storage),
        name != f.idents@[x.0 as int]@ ==> binding_of(after, f, name) == binding_of(before, f, name),
{
    assert(after.last()@.drop_last() =~= before.last()@);
}

/// The cells that the values of `es` take, each by its type's size.
pub open spec fn cells(types: Seq<Option<Type>>, es: Seq<ExprId>) -> int
    decreases es.len(),
{
    if es.len() == 0 {
        0
    } else {
        cells(types, es.drop_last()) + match types[es.last().0 as int] {
            Some(t) => type_size(t@) as int,
            None => 0,
        }
    }
}

/// The code that lowering the simple expressions `es` into consecutive
/// cells from `place` emits when the next free register is `n`: for each
/// element in order, its own code, then the copy of its value to the place
/// offset by the cells of the elements before it; and the next free
/// register after them.
pub open spec fn elems_code(ctx: LowerCtx, es: Seq<ExprId>, place: Place, n: nat) -> (Seq<Inst>, nat)
    decreases es.len(),
{
    if es.len() == 0 {
        (Seq::empty(), n)
    } else {
        let (c0, n0) = elems_code(ctx, es.drop_last(), place, n);
        let e = es.last();
        let (c, v, n1) = simple_code(ctx, e, n0);
        let p = place.spec_add_offset(cells(ctx.types@, es.drop_last()) as usize);
        (c0 + c + write_instrs(v, p, simple_size(ctx, e), n1 as usize), n1 + write_regs(v, p))
    }
}

/// Every element of `es` is simple, the registers each takes are left
/// when its turn comes, `place` is a memory place, and the cells of all of
/// them fit after its offset.
pub open spec fn elems_fit(ctx: LowerCtx, es: Seq<ExprId>, place: Place, n: nat) -> bool
    decreases es.len(),
{
    if es.len() == 0 {
        true
    } else {
        &&& elems_fit(ctx, es.drop_last(), place, n)
        &&& simple_expr(ctx, es.last())
        &&& elems_code(ctx, es.drop_last(), place, n).1 + regs_needed(*ctx.file, es.last()) + 2 <= usize::MAX
        &&& !(place is Reg)
        &&& place.offset() + cells(ctx.types@, es) <= usize::MAX
    }
}

/// The code that evaluates the simple one-cell arguments `es` into
/// registers when the next free register is `n`: for each argument in
/// order, its own code and then the load of its value into a register; the
/// registers, in the order of the arguments; and the next free register.
pub open spec fn args_code(ctx: LowerCtx, es: Seq<ExprId>, n: nat) -> (Seq<Inst>, Seq<Reg>, nat)
    decreases es.len(),
{
    if es.len() == 0 {
        (Seq::empty(), Seq::empty(), n)
    } else {
        let (c0, rs, n0) = args_code(ctx, es.drop_last(), n);
        let (c, v, n1) = simple_code(ctx, es.last(), n0);
        let (l, r, n2) = scalar_load(v, n1);
        (c0 + c + l, rs.push(r), n2)
    }
}

/// Every argument of `es` is simple and takes one cell at most, and the
/// registers each takes are left when its turn comes.
pub open spec fn args_fit(ctx: LowerCtx, es: Seq<ExprId>, n: nat) -> bool
    decreases es.len(),
{
    if es.len() == 0 {
        true
    } else {
        &&& args_fit(ctx, es.drop_last(), n)
        &&& simple_expr(ctx, es.last())
        &&& simple_size(ctx, es.last()) <= 1
        &&& args_code(ctx, es.drop_last(), n).2 + regs_needed(*ctx.file, es.last()) + 2 <= usize::MAX
    }
}

/// Fitting arguments fit in every prefix.
pub proof fn lemma_args_fit_prefix(ctx: LowerCtx, es: Seq<ExprId>, n: nat, k: int)
    requires
        args_fit(ctx, es, n),
        0 <= k <= es.len(),
    ensures
        args_fit(ctx, es.take(k), n),
    decreases es.len(),
{
    if k < es.len() {
        assert(es.drop_last().take(k) =~= es.take(k));
        lemma_args_fit_prefix(ctx, es.drop_last(), n, k);
    } else {
        assert(es.take(k) =~= es);
    }
}

/// Fitting elements fit in every prefix.
pub proof fn lemma_elems_fit_prefix(ctx: LowerCtx, es: Seq<ExprId>, place: Place, n: nat, k: int)
    requires
        elems_fit(ctx, es, place, n),
        0 <= k <= es.len(),
    ensures
        elems_fit(ctx, es.take(k), place, n),
    decreases es.len(),
{
    if k < es.len() {
        assert(es.drop_last().take(k) =~= es.take(k));
        lemma_elems_fit_prefix(ctx, es.drop_last(), place, n, k);
    } else {
        assert(es.take(k) =~= es);
    }
}

/// The code of simple elements depends on the file, the types, the
/// coercions and the scopes alone.
pub proof fn lemma_elems_frame(a: LowerCtx, b: LowerCtx, es: Seq<ExprId>, place: Place, n: nat)
    requires
        a.file == b.file,
        a.types == b.types,
        a.coercions == b.coercions,
        a.scopes == b.scopes,
    ensures
        elems_code(a, es, place, n) == elems_code(b, es, place, n),
        elems_fit(a, es, place, n) == elems_fit(b, es, place, n),
    decreases es.len(),
{
    if es.len() > 0 {
        lemma_elems_frame(a, b, es.drop_last(), place, n);
        lemma_simple_code_frame(a, b, es.last(), elems_code(a, es.drop_last(), place, n).1);
        lemma_simple_frame(a, b, es.last());
    }
}

/// What writing `v` into `dest` did: where two more registers fit, the
/// instructions that copy `size` cells of `v` into `dest` were appended to
/// the current block; otherwise nothing changed and the write failed.
pub open spec fn written<'a>(now: LowerCtx<'a>, before: LowerCtx<'a>, v: Value, dest: Place, size: usize, r: Result<(), LowerError>) -> bool {
    if before.builder.next_reg + 2 <= usize::MAX {
        &&& r is Ok
        &&& now.builder.next_reg == before.builder.next_reg + write_regs(v, dest)
        &&& now.builder.appended_regs(&before.builder, write_instrs(v, dest, size, before.builder.next_reg))
    } else {
        &&& r == Err::<(), LowerError>(LowerError::TooLarge)
        &&& now == before
    }
}

/// Why lowering `e` fails before it starts: its type is missing or has no
/// layout.
pub open spec fn lowering_refused(types: Seq<Option<Type>>, e: ExprId) -> Option<LowerError> {
    match types[e.0 as int] {
        None => Some(LowerError::MissingType),
        Some(t) => if has_layout(t@) { None } else { Some(LowerError::NoLayout) },
    }
}

pub struct LowerCtx<'a> {
    pub file: &'a File,
    pub scopes: Vec<Vec<(Ident, Value)>>,
    pub builder: IrBuilder,
    pub types: &'a Vec<Option<Type>>,
    pub coercions: &'a Vec<Option<Coercion>>,
}

impl<'a> LowerCtx<'a> {
    /// The context can lower any expression of the file.
    pub open spec fn ok(&self) -> bool {
        &&& self.file.wf()
        &&& self.builder.wf()
        &&& self.builder.valid()
        &&& self.scopes@.len() > 0
        &&& forall|i: int, j: int| 0 <= i < self.scopes@.len() && 0 <= j < self.scopes@[i]@.len()
            ==> value_ok((#[trigger] self.scopes@[i]@[j]).1, self.builder.next_reg as nat, self.builder.stack_slots@.len())
                && self.scopes@[i]@[j].0.0 < self.file.idents@.len()
        &&& self.types@.len() == self.file.exprs@.len()
        &&& self.coercions@.len() == self.file.exprs@.len()
    }

    /// `self` works on the same file and inference results as `old`, and its
    /// builder has kept every block of `old`'s.
    pub open spec fn same_input(&self, old: &LowerCtx<'a>) -> bool {
        &&& self.file == old.file
        &&& self.types == old.types
        &&& self.coercions == old.coercions
        &&& self.builder.blocks@.len() >= old.builder.blocks@.len()
        &&& self.builder.next_reg >= old.builder.next_reg
        &&& self.builder.stack_slots@.len() >= old.builder.stack_slots@.len()
        &&& forall|k: int| 0 <= k < old.builder.stack_slots@.len() ==> #[trigger] self.builder.stack_slots@[k] == old.builder.stack_slots@[k]
    }

    /// `p` is a place of the current builder.
    pub open spec fn place_ok(&self, p: Place) -> bool {
        place_ok(p, self.builder.next_reg as nat, self.builder.stack_slots@.len())
    }

    /// `v` is a value of the current builder.
    pub open spec fn value_ok(&self, v: Value) -> bool {
        value_ok(v, self.builder.next_reg as nat, self.builder.stack_slots@.len())
    }

    fn room(&self, k: usize) -> (res: Result<(), LowerError>)
        ensures
            from_lowering(res),
            res is Ok <==> self.builder.next_reg + k <= usize::MAX,
            res is Err ==> res == Err::<(), LowerError>(LowerError::TooLarge),
    {
        if self.builder.next_reg > usize::MAX - k {
            Err(LowerError::TooLarge)
        } else {
            Ok(())
        }
    }

    fn type_of(&self, e: ExprId) -> (res: Result<&'a Type, LowerError>)
        requires
            e.0 < self.types@.len(),
        ensures
            from_lowering(res),
            res matches Ok(t) ==> self.types@[e.0 as int] == Some(*t),
            res is Err ==> self.types@[e.0 as int] is None && res == Err::<&Type, LowerError>(LowerError::MissingType),
    {
        let types = self.types;
        match &types[e.0] {
            Some(t) => Ok(t),
            None => Err(LowerError::MissingType),
        }
    }

    fn size_of(tp: &Type) -> (res: Result<usize, LowerError>)
        ensures
            from_lowering(res),
            res matches Ok(n) ==> has_layout(tp@) && n == type_size(tp@),
            res is Err ==> !has_layout(tp@) && res == Err::<usize, LowerError>(LowerError::NoLayout),
    {
        match try_get_size(tp) {
            Some(s) => Ok(s),
            None => Err(LowerError::NoLayout),
        }
    }

    fn new_reg(&mut self) -> (r: Result<Reg, LowerError>)
        requires
            old(self).ok(),
        ensures
            from_lowering(r),
            final(self).ok(),
            final(self).same_input(old(self)),
            final(self).scopes == old(self).scopes,
            r matches Ok(reg) ==> reg.0 < final(self).builder.next_reg,
            old(self).builder.next_reg < usize::MAX ==> {
                &&& r == Ok::<Reg, LowerError>(Reg(old(self).builder.next_reg))
                &&& final(self).builder.next_reg == old(self).builder.next_reg + 1
                &&& final(self).builder.blocks == old(self).builder.blocks
                &&& final(self).builder.stack_slots == old(self).builder.stack_slots
                &&& final(self).builder.current_block == old(self).builder.current_block
            },
            old(self).builder.next_reg == usize::MAX ==> r == Err::<Reg, LowerError>(LowerError::TooLarge) && *final(self) == *old(self),
    {
        self.room(1)?;
        Ok(self.builder.new_reg())
    }

    fn load_scalar(&mut self, v: Value) -> (r: Result<Reg, LowerError>)
        requires
            old(self).ok(),
            old(self).value_ok(v),
        ensures
            from_lowering(r),
            final(self).ok(),
            final(self).same_input(old(self)),
            final(self).scopes == old(self).scopes,
            r matches Ok(reg) ==> reg.0 < final(self).builder.next_reg,
            final(self).builder.blocks@.len() == old(self).builder.blocks@.len(),
            final(self).builder.current_block == old(self).builder.current_block,
            !(v is Unit) && old(self).builder.next_reg < usize::MAX ==> r is Ok && final(self).builder.next_reg <= old(self).builder.next_reg + 1,
            r is Ok ==> !(v is Unit) && old(self).builder.next_reg < usize::MAX,
            !(v is Unit) && old(self).builder.next_reg < usize::MAX ==> {
                let (code, reg, n) = scalar_load(v, old(self).builder.next_reg as nat);
                &&& r == Ok::<Reg, LowerError>(reg)
                &&& final(self).builder.appended_regs(&old(self).builder, code)
                &&& final(self).builder.next_reg == n
            },
    {
        if let Value::Unit = v {
            return Err(LowerError::NotScalar);
        }
        self.room(1)?;
        Ok(v.load_scalar(&mut self.builder))
    }

    fn write_value(&mut self, v: Value, dest: Place, size: usize) -> (r: Result<(), LowerError>)
        requires
            old(self).ok(),
            old(self).value_ok(v),
            old(self).place_ok(dest),
        ensures
            from_lowering(r),
            final(self).ok(),
            final(self).same_input(old(self)),
            final(self).scopes == old(self).scopes,
            written(*final(self), *old(self), v, dest, size, r),
    {
        self.room(2)?;
        v.write_to(dest, size, &mut self.builder);
        Ok(())
    }

    fn write_opt(&mut self, v: Value, dest: Option<Place>, size: usize) -> (r: Result<(), LowerError>)
        requires
            old(self).ok(),
            old(self).value_ok(v),
            dest matches Some(p) ==> old(self).place_ok(p),
        ensures
            from_lowering(r),
            final(self).ok(),
            final(self).same_input(old(self)),
            final(self).scopes == old(self).scopes,
            match dest {
                Some(p) => written(*final(self), *old(self), v, p, size, r),
                None => r is Ok && *final(self) == *old(self),
            },
    {
        if let Some(dest) = dest {
            self.write_value(v, dest, size)?;
        }
        Ok(())
    }

    fn as_addr(&mut self, place: Place) -> (r: Result<Reg, LowerError>)
        requires
            old(self).ok(),
            old(self).place_ok(place),
        ensures
            from_lowering(r),
            final(self).ok(),
            final(self).same_input(old(self)),
            final(self).scopes == old(self).scopes,
            r matches Ok(reg) ==> reg.0 < final(self).builder.next_reg,
            final(self).builder.stack_slots@ == old(self).builder.stack_slots@,
            r matches Ok(reg) ==> final(self).builder.appended_regs(&old(self).builder, seq![place.addr_instr(reg)]),
            !(place is Reg) && old(self).builder.next_reg < usize::MAX ==> {
                &&& r == Ok::<Reg, LowerError>(Reg(old(self).builder.next_reg))
                &&& final(self).builder.next_reg == old(self).builder.next_reg + 1
            },
    {
        if let Place::Reg(_) = place {
            return Err(LowerError::NotAPlace);
        }
        self.room(1)?;
        Ok(place.as_addr(&mut self.builder))
    }

    fn add_offset(place: Place, n: usize) -> (r: Result<Place, LowerError>)
        ensures
            from_lowering(r),
            r matches Ok(p) ==> p == place.spec_add_offset(n) && !(place is Reg),
            !(place is Reg) && place.offset() + n <= usize::MAX ==> r is Ok,
    {
        match place {
            Place::Reg(_) => Err(LowerError::NotAPlace),
            Place::DynamicPtr { offset, .. } | Place::Stack { offset, .. } => {
                if offset > usize::MAX - n {
                    Err(LowerError::TooLarge)
                } else {
                    Ok(place.add_offset(n))
                }
            },
        }
    }

    /// A fresh stack slot of `size` cells, as a place.
    fn stack_place(&mut self, size: usize) -> (p: Place)
        requires
            old(self).ok(),
        ensures
            final(self).ok(),
            final(self).same_input(old(self)),
            final(self).scopes == old(self).scopes,
            final(self).place_ok(p),
            p == (Place::Stack { slot: StackSlotId(old(self).builder.stack_slots@.len() as usize), offset: 0 }),
            final(self).builder.stack_slots@.len() == old(self).builder.stack_slots@.len() + 1,
            final(self).builder.stack_slots@[old(self).builder.stack_slots@.len() as int].size == size,
            final(self).builder.blocks == old(self).builder.blocks,
            final(self).builder.current_block == old(self).builder.current_block,
            final(self).builder.next_reg == old(self).builder.next_reg,
    {
        proof {
            assert(self.builder.stack_slots@.len() == self.builder.stack_slots.len());
        }
        let id = self.builder.new_stack_slot(size);
        Place::Stack { slot: id, offset: 0 }
    }

    /// The place a variable `ident` is stored at.
    pub fn lookup(&self, ident: Ident) -> (res: Result<Value, LowerError>)
        requires
            self.ok(),
            ident.0 < self.file.idents@.len(),
        ensures
            from_lowering(res),
            res == (match binding_of(self.scopes@, *self.file, self.file.idents@[ident.0 as int]@) {
                Some(v) => Ok::<Value, LowerError>(v),
                None => Err(LowerError::UnboundVariable),
            }),
            res matches Ok(v) ==> self.value_ok(v),
    {
        let ghost name = self.file.idents@[ident.0 as int]@;
        let name_s = &self.file.idents[ident.0];
        let mut i = self.scopes.len();
        assert(self.scopes@.subrange(0, i as int) =~= self.scopes@);
        while i > 0
            invariant
                self.ok(),
                i <= self.scopes@.len(),
                name_s@ == name,
                name == self.file.idents@[ident.0 as int]@,
                binding_of(self.scopes@, *self.file, name) == binding_of(self.scopes@.subrange(0, i as int), *self.file, name),
            decreases i,
        {
            let scope = &self.scopes[i - 1];
            let ghost ss = self.scopes@.subrange(0, i as int);
            assert(ss.last() == scope);
            assert(ss.drop_last() =~= self.scopes@.subrange(0, i - 1));
            let mut j = scope.len();
            assert(scope@.subrange(0, j as int) =~= scope@);
            while j > 0
                invariant
                    self.ok(),
                    0 < i <= self.scopes@.len(),
                    scope == self.scopes@[i - 1],
                    ss == self.scopes@.subrange(0, i as int),
                    ss.last() == scope,
                    binding_of(self.scopes@, *self.file, name) == binding_of(ss, *self.file, name),
                    j <= scope@.len(),
                    name_s@ == name,
                    name == self.file.idents@[ident.0 as int]@,
                    binding_in(scope@, *self.file, name) == binding_in(scope@.subrange(0, j as int), *self.file, name),
                decreases j,
            {
                let entry = &scope[j - 1];
                let ghost s = scope@.subrange(0, j as int);
                assert(s.last() == *entry);
                assert(s.drop_last() =~= scope@.subrange(0, j - 1));
                assert(entry.0.0 < self.file.idents@.len());
                if self.file.idents[entry.0.0] == *name_s {
                    proof {
                        assert(binding_in(s, *self.file, name) == Some(entry.1));
                        assert(binding_of(ss, *self.file, name) == Some(entry.1));
                        assert(self.value_ok(self.scopes@[i - 1]@[j - 1].1));
                    }
                    return Ok(entry.1);
                }
                j -= 1;
            }
            assert(scope@.subrange(0, 0) =~= Seq::<(Ident, Value)>::empty());
            i -= 1;
        }
        assert(self.scopes@.subrange(0, 0) =~= Seq::<Vec<(Ident, Value)>>::empty());
        Err(LowerError::UnboundVariable)
    }

    /// Binds `x` to `storage` in the innermost scope.
    pub fn extend(&mut self, x: Ident, storage: Value)
        requires
            old(self).ok(),
            old(self).value_ok(storage),
            x.0 < old(self).file.idents@.len(),
        ensures
            final(self).ok(),
            final(self).same_input(old(self)),
            final(self).builder == old(self).builder,
            final(self).scopes@.len() == old(self).scopes@.len(),
            final(self).scopes@.drop_last() == old(self).scopes@.drop_last(),
            final(self).scopes@.last()@ == old(self).scopes@.last()@.push((x, storage)),
    {
        let k = self.scopes.len() - 1;
        let ghost old_scopes = self.scopes@;
        self.scopes[k].push((x, storage));
        proof {
            assert(self.scopes@.drop_last() =~= old_scopes.drop_last());
            assert forall|i: int, j: int| 0 <= i < self.scopes@.len() && 0 <= j < self.scopes@[i]@.len() implies
                value_ok((#[trigger] self.scopes@[i]@[j]).1, self.builder.next_reg as nat, self.builder.stack_slots@.len())
                && self.scopes@[i]@[j].0.0 < self.file.idents@.len() by {
                if i < k {
                    assert(self.scopes@[i] == old_scopes[i]);
                } else if j < old_scopes[i]@.len() {
                    assert(self.scopes@[i]@[j] == old_scopes[i]@[j]);
                }
            }
        }
    }

    /// Lowers `expr` to a value, applying its coercion if it has one, and
    /// writes the value into `dest` if one is given.
    pub fn lower_value(&mut self, expr: ExprId, dest: Option<Place>) -> (res: Result<Value, LowerError>)
        requires
            old(self).ok(),
            expr.0 < old(self).file.exprs@.len(),
            dest matches Some(p) ==> old(self).place_ok(p),
        ensures
            from_lowering(res),
            final(self).ok(),
            final(self).same_input(old(self)),
            res matches Ok(v) ==> final(self).value_ok(v),
            old(self).coercions@[expr.0 as int] is None ==> {
                &&& (res matches Ok(v) ==> lowered(*old(self).file, old(self).types@, expr, dest, v))
                &&& (lowering_refused(old(self).types@, expr) matches Some(err) ==> res == Err::<Value, LowerError>(err))
                &&& (lowering_refused(old(self).types@, expr) is None ==> read_result(*old(self), expr, res))
                &&& (lowering_refused(old(self).types@, expr) is None ==> leaf_lowered(*old(self), *final(self), expr, dest, res))
                &&& simple_lowered(*old(self), *final(self), expr, dest, res)
            },
            old(self).coercions@[expr.0 as int] is Some ==> (res matches Ok(v) ==> slice_of_array_ptr(old(self).types@, expr, dest, v)
                && fat_pointer_made(old(self).types@, expr, dest, old(self).builder.stack_slots@.len(), final(self).builder, v)
                && thin_pointer_stored(*old(self), *final(self), expr, v)),
        decreases expr.0, 3nat,
    {
        let coercions = self.coercions;
        match &coercions[expr.0] {
            Some(Coercion::ArrayPtrToSlice) => self.lower_array_ptr_to_slice(expr, dest),
            None => self.lower_value_inner(expr, dest),
        }
    }

    /// Lowers a list of expressions into consecutive cells from `place`.
    fn lower_into(&mut self, exprs: &Vec<ExprId>, place: Place, Ghost(parent): Ghost<ExprId>) -> (res: Result<(), LowerError>)
        requires
            old(self).ok(),
            old(self).place_ok(place),
            parent.0 < old(self).file.exprs@.len(),
            forall|k: int| 0 <= k < exprs@.len() ==> (#[trigger] exprs@[k]).0 < parent.0,
        ensures
            from_lowering(res),
            final(self).ok(),
            final(self).same_input(old(self)),
            res is Ok ==> forall|k: int| 0 <= k < exprs@.len() ==> lowering_refused(old(self).types@, #[trigger] exprs@[k]) is None,
            res is Ok ==> cells(old(self).types@, exprs@) <= usize::MAX,
            exprs@.len() == 0 ==> res is Ok && *final(self) == *old(self),
            elems_fit(*old(self), exprs@, place, old(self).builder.next_reg as nat) ==> {
                let (code, n) = elems_code(*old(self), exprs@, place, old(self).builder.next_reg as nat);
                &&& res is Ok
                &&& final(self).scopes == old(self).scopes
                &&& final(self).builder.appended_regs(&old(self).builder, code)
                &&& final(self).builder.next_reg == n
            },
        decreases parent.0, 0nat,
    {
        let ghost s0 = *self;
        let ghost nr = s0.builder.next_reg as nat;
        let ghost all = elems_fit(s0, exprs@, place, nr);
        let mut offset: usize = 0;
        let mut i: usize = 0;
        proof {
            assert(self.builder.current_instrs() =~= s0.builder.current_instrs() + Seq::<Inst>::empty());
        }
        while i < exprs.len()
            invariant
                self.ok(),
                self.same_input(old(self)),
                s0 == *old(self),
                nr == s0.builder.next_reg,
                all == elems_fit(s0, exprs@, place, nr),
                i <= exprs@.len(),
                all ==> {
                    let (code, n) = elems_code(s0, exprs@.take(i as int), place, nr);
                    &&& self.scopes == s0.scopes
                    &&& self.builder.appended_regs(&s0.builder, code)
                    &&& self.builder.next_reg == n
                },
                offset == cells(old(self).types@, exprs@.take(i as int)),
                forall|k: int| 0 <= k < i ==> lowering_refused(old(self).types@, #[trigger] exprs@[k]) is None,
                i == 0 ==> *self == *old(self),
                forall|k: int| 0 <= k < exprs@.len() ==> (#[trigger] exprs@[k]).0 < parent.0,
                parent.0 < self.file.exprs@.len(),
                self.place_ok(place),
            decreases exprs.len() - i,
        {
            let e = exprs[i];
            let ghost si = *self;
            proof {
                assert(exprs@.take(i + 1).drop_last() =~= exprs@.take(i as int));
                assert(exprs@.take(i + 1).last() == e);
                reveal(simple_lowered);
                if all {
                    lemma_elems_fit_prefix(s0, exprs@, place, nr, i + 1);
                    assert(elems_fit(s0, exprs@.take(i + 1), place, nr));
                    assert(elems_fit(s0, exprs@.take(i as int), place, nr));
                    assert(place.offset() + cells(s0.types@, exprs@.take(i + 1)) <= usize::MAX);
                    assert(cells(s0.types@, exprs@.take(i + 1)) >= cells(s0.types@, exprs@.take(i as int)));
                    assert(simple_expr(s0, e));
                    assert(elems_code(s0, exprs@.take(i as int), place, nr).1 + regs_needed(*s0.file, e) + 2 <= usize::MAX);
                    lemma_simple_frame(s0, si, e);
                    lemma_simple_code_frame(s0, si, e, si.builder.next_reg as nat);
                }
            }
            let p = Self::add_offset(place, offset)?;
            self.lower_value(e, Some(p))?;
            let tp = self.type_of(e)?;
            let size = Self::size_of(tp)?;
            if offset > usize::MAX - size {
                return Err(LowerError::TooLarge);
            }
            proof {
                if all {
                    let c0 = elems_code(s0, exprs@.take(i as int), place, nr).0;
                    let (c, v, n1) = simple_code(s0, e, si.builder.next_reg as nat);
                    lemma_appended_trans(s0.builder, si.builder, self.builder, c0,
                        c + write_instrs(v, p, simple_size(s0, e), n1 as usize));
                    assert(c0 + (c + write_instrs(v, p, simple_size(s0, e), n1 as usize))
                        =~= elems_code(s0, exprs@.take(i + 1), place, nr).0);
                }
            }
            offset = offset + size;
            i += 1;
        }
        proof {
            assert(exprs@.take(i as int) =~= exprs@);
        }
        Ok(())
    }

    /// Lowers `expr` to a value, without its coercion, and writes the value
    /// into `dest` if one is given.
    #[verifier::rlimit(100)]
    #[verifier::spinoff_prover]
    pub fn lower_value_inner(&mut self, expr: ExprId, dest: Option<Place>) -> (res: Result<Value, LowerError>)
        requires
            old(self).ok(),
            expr.0 < old(self).file.exprs@.len(),
            dest matches Some(p) ==> old(self).place_ok(p),
        ensures
            from_lowering(res),
            final(self).ok(),
            final(self).same_input(old(self)),
            res matches Ok(v) ==> final(self).value_ok(v),
            res matches Ok(v) ==> lowered(*old(self).file, old(self).types@, expr, dest, v),
            lowering_refused(old(self).types@, expr) matches Some(err) ==> res == Err::<Value, LowerError>(err),
            lowering_refused(old(self).types@, expr) is None ==> read_result(*old(self), expr, res),
            lowering_refused(old(self).types@, expr) is None ==> leaf_lowered(*old(self), *final(self), expr, dest, res),
            simple_lowered(*old(self), *final(self), expr, dest, res),
        decreases expr.0, 1nat,
    {
        let file = self.file;
        let ghost s0 = *self;
        let ghost nr = s0.builder.next_reg as nat;
        proof {
            if !simple_expr(s0, expr) {
                lemma_simple_vacuous(s0, expr);
            }
        }
        let tp = self.type_of(expr)?;
        let size = Self::size_of(tp)?;
        proof {
            assert(ast::expr_refs_ok(file.exprs@[expr.0 as int].0, expr.0 as int, file.patterns@.len(), file.idents@.len()));
        }
        match &file.exprs[expr.0].0 {
            ExprData::Error => Err(LowerError::ErrorExpr),
            ExprData::Num(n) => {
                proof {
                    reveal(simple_lowered);
                }
                let v = Value::Int(*n);
                self.write_opt(v, dest, size)?;
                proof {
                    assert(s0.builder.current_instrs() + Seq::<Inst>::empty() =~= s0.builder.current_instrs());
                    if let Some(p) = dest {
                        assert(Seq::<Inst>::empty() + write_instrs(v, p, size, s0.builder.next_reg) =~= write_instrs(v, p, size, s0.builder.next_reg));
                    }
                }
                Ok(v)
            },
            ExprData::True | ExprData::False => {
                let is_true = match &file.exprs[expr.0].0 {
                    ExprData::True => true,
                    _ => false,
                };
                proof {
                    reveal(simple_lowered);
                }
                let reg = self.new_reg()?;
                let ghost s1 = *self;
                self.builder.push_instr(Inst::LoadBool(reg, is_true));
                let v = Value::LVal(Place::Reg(reg));
                let ghost s2 = *self;
                proof {
                    assert(s1.builder.appended_regs(&s0.builder, Seq::empty()));
                    lemma_appended_trans(s0.builder, s1.builder, s2.builder, Seq::empty(), seq![Inst::LoadBool(reg, is_true)]);
                    assert(Seq::<Inst>::empty() + seq![Inst::LoadBool(reg, is_true)] =~= seq![Inst::LoadBool(reg, is_true)]);
                }
                self.write_opt(v, dest, size)?;
                proof {
                    if let Some(p) = dest {
                        lemma_appended_trans(s0.builder, s2.builder, self.builder, seq![Inst::LoadBool(reg, is_true)],
                            write_instrs(v, p, size, s2.builder.next_reg));
                    }
                }
                Ok(v)
            },
            ExprData::Var(ident) => {
                proof {
                    reveal(simple_lowered);
                }
                let val = self.lookup(*ident)?;
                self.write_opt(val, dest, size)?;
                proof {
                    assert(s0.builder.current_instrs() + Seq::<Inst>::empty() =~= s0.builder.current_instrs());
                    if let Some(p) = dest {
                        assert(Seq::<Inst>::empty() + write_instrs(val, p, size, s0.builder.next_reg) =~= write_instrs(val, p, size, s0.builder.next_reg));
                    }
                }
                Ok(val)
            },
            ExprData::Let(pat, e1, e2) => {
                let val = self.lower_value(*e1, None)?;
                let tp1 = self.type_of(*e1)?;
                self.lower_pat(*pat, val, None, tp1)?;
                self.lower_value(*e2, dest)
            },
            ExprData::Sequence(e1, e2) => {
                self.lower_value(*e1, None)?;
                self.lower_value(*e2, dest)
            },
            ExprData::FnCall(name, args) => self.lower_call(expr, *name, args, dest, size),
            ExprData::Assign(e1, e2) => self.lower_assign(expr, *e1, *e2),
            ExprData::AddressOf(e) => self.lower_address_of(expr, *e, dest, size),
            ExprData::Deref(e) => self.lower_deref(expr, *e, dest, size),
            ExprData::Array(exprs) | ExprData::Tuple(exprs) => {
                let place = match dest {
                    Some(d) => d,
                    None => self.stack_place(size),
                };
                let ghost sm = *self;
                proof {
                    lemma_elems_frame(s0, sm, exprs@, place, nr);
                }
                self.lower_into(exprs, place, Ghost(expr))?;
                Ok(Value::LVal(place))
            },
            ExprData::Index(place_expr, id_expr) => self.lower_index(expr, *place_expr, *id_expr, dest, size),
            ExprData::Match(target_expr, arms) => {
                let val = self.lower_value(*target_expr, None)?;
                let end_block = self.builder.new_block();
                let place = match dest {
                    Some(d) => d,
                    None => self.stack_place(size),
                };
                let pat_tp = self.type_of(*target_expr)?;
                let mut i: usize = 0;
                while i < arms.len()
                    invariant
                        self.ok(),
                        self.same_input(old(self)),
                        self.file == file,
                        end_block.0 < self.builder.blocks@.len(),
                        forall|k: int| 0 <= k < arms@.len() ==> (#[trigger] arms@[k]).0.0 < file.patterns@.len()
                            && arms@[k].1.0 < expr.0,
                        expr.0 < file.exprs@.len(),
                        self.value_ok(val),
                        self.place_ok(place),
                        lowering_refused(old(self).types@, expr) is None,
                        old(self).file.exprs@[expr.0 as int].0 is Match,
                        forall|a: LowerCtx, d: Option<Place>, r: Result<Value, LowerError>| #[trigger] simple_lowered(*old(self), a, expr, d, r),
                    decreases arms.len() - i,
                {
                    let (pat, arm_expr) = arms[i];
                    let next_block = self.builder.new_block();
                    self.lower_pat(pat, val, Some(next_block), pat_tp)?;
                    self.lower_value(arm_expr, Some(place))?;
                    self.builder.finish_block(Terminator::Jump(end_block));
                    self.builder.switch_to_block(next_block);
                    i += 1;
                }
                self.builder.switch_to_block(end_block);
                Ok(Value::LVal(place))
            },
            ExprData::BinOp(op, e1, e2) => self.lower_binop(expr, *op, *e1, *e2, dest, size),
        }
    }

    /// Lowers the assignment `expr` of `e2` to `e1`: `e1` must be a place,
    /// and `e2` is lowered into it.
    #[verifier::spinoff_prover]
    fn lower_assign(&mut self, expr: ExprId, e1: ExprId, e2: ExprId) -> (res: Result<Value, LowerError>)
        requires
            old(self).ok(),
            expr.0 < old(self).file.exprs@.len(),
            old(self).file.exprs@[expr.0 as int].0 == ExprData::Assign(e1, e2),
            e1.0 < expr.0,
            e2.0 < expr.0,
        ensures
            from_lowering(res),
            final(self).ok(),
            final(self).same_input(old(self)),
            res matches Ok(v) ==> v == Value::Unit,
            old(self).file.exprs@[e1.0 as int].0 is Num && old(self).coercions@[e1.0 as int] is None
                ==> res == Err::<Value, LowerError>(match lowering_refused(old(self).types@, e1) {
                    Some(err) => err,
                    None => LowerError::NotAPlace,
                }),
            assign_emitted(*old(self), *final(self), e1, e2, res),
        decreases expr.0, 0nat,
    {
        let ghost s0 = *self;
        let ghost nr = s0.builder.next_reg as nat;
        proof {
            reveal(simple_lowered);
        }
        let v1 = self.lower_value(e1, None)?;
        let ghost s1 = *self;
        proof {
            let (c1, w1, n1) = simple_code(s0, e1, nr);
            if simple_expr(s0, e1) && simple_expr(s0, e2)
                && nr + regs_needed(*s0.file, e1) + regs_needed(*s0.file, e2) + 4 <= usize::MAX {
                lemma_simple_frame(s0, s1, e2);
                lemma_simple_code_frame(s0, s1, e2, n1);
            }
        }
        match v1 {
            Value::LVal(place) => {
                self.lower_value(e2, Some(place))?;
                proof {
                    let (c1, w1, n1) = simple_code(s0, e1, nr);
                    let (c2, w2, n2) = simple_code(s0, e2, n1);
                    if simple_expr(s0, e1) && simple_expr(s0, e2)
                        && nr + regs_needed(*s0.file, e1) + regs_needed(*s0.file, e2) + 4 <= usize::MAX
                        && (w1 matches Value::LVal(q) && s0.place_ok(q)) {
                        lemma_appended_trans(s0.builder, s1.builder, self.builder, c1,
                            c2 + write_instrs(w2, place, simple_size(s0, e2), n2 as usize));
                        assert(c1 + (c2 + write_instrs(w2, place, simple_size(s0, e2), n2 as usize))
                            =~= c1 + c2 + write_instrs(w2, place, simple_size(s0, e2), n2 as usize));
                    }
                }
            },
            Value::Unit => {},
            Value::Int(_) => return Err(LowerError::NotAPlace),
        }
        Ok(Value::Unit)
    }

    /// Lowers the address `expr` of `e`, which must live in memory.
    #[verifier::spinoff_prover]
    fn lower_address_of(&mut self, expr: ExprId, e: ExprId, dest: Option<Place>, size: usize) -> (res: Result<Value, LowerError>)
        requires
            old(self).ok(),
            expr.0 < old(self).file.exprs@.len(),
            old(self).file.exprs@[expr.0 as int].0 == ExprData::AddressOf(e),
            e.0 < expr.0,
            dest matches Some(p) ==> old(self).place_ok(p),
        ensures
            from_lowering(res),
            final(self).ok(),
            final(self).same_input(old(self)),
            res matches Ok(v) ==> final(self).value_ok(v) && v is LVal,
            dest is None ==> address_emitted(*old(self), *final(self), e, res),
        decreases expr.0, 0nat,
    {
        let ghost s0 = *self;
        proof {
            reveal(simple_lowered);
        }
        let reg = match self.lower_value(e, None)? {
            Value::LVal(place) => {
                let ghost s1 = *self;
                let a = self.as_addr(place)?;
                proof {
                    let (c, w, n1) = simple_code(s0, e, s0.builder.next_reg as nat);
                    if simple_expr(s0, e) && s0.builder.next_reg + regs_needed(*s0.file, e) + 2 <= usize::MAX {
                        lemma_appended_trans(s0.builder, s1.builder, self.builder, c, seq![place.addr_instr(a)]);
                    }
                }
                a
            },
            _ => return Err(LowerError::NotAPlace),
        };
        let v = Value::LVal(Place::Reg(reg));
        self.write_opt(v, dest, size)?;
        Ok(v)
    }

    /// Lowers the dereference `expr` of `e`: the cell that `e` points to.
    #[verifier::spinoff_prover]
    fn lower_deref(&mut self, expr: ExprId, e: ExprId, dest: Option<Place>, size: usize) -> (res: Result<Value, LowerError>)
        requires
            old(self).ok(),
            expr.0 < old(self).file.exprs@.len(),
            old(self).file.exprs@[expr.0 as int].0 == ExprData::Deref(e),
            e.0 < expr.0,
            dest matches Some(p) ==> old(self).place_ok(p),
        ensures
            from_lowering(res),
            final(self).ok(),
            final(self).same_input(old(self)),
            res matches Ok(v) ==> final(self).value_ok(v) && v is LVal,
            dest is None ==> deref_emitted(*old(self), *final(self), e, res),
        decreases expr.0, 0nat,
    {
        let ghost s0 = *self;
        proof {
            reveal(simple_lowered);
        }
        let pv = self.lower_value(e, None)?;
        let ghost s1 = *self;
        let ptr = self.load_scalar(pv)?;
        proof {
            let (c, w, n1) = simple_code(s0, e, s0.builder.next_reg as nat);
            if simple_expr(s0, e) && s0.builder.next_reg + regs_needed(*s0.file, e) + 2 <= usize::MAX {
                lemma_appended_trans(s0.builder, s1.builder, self.builder, c, scalar_load(w, n1).0);
            }
        }
        let v = Value::LVal(Place::DynamicPtr { base: ptr, offset: 0 });
        self.write_opt(v, dest, size)?;
        Ok(v)
    }

    /// Lowers the element `expr` of `place_expr` at `id_expr`: its address
    /// is the base address of the array or slice plus the index times the
    /// element size `size`.
    #[verifier::rlimit(60)]
    #[verifier::spinoff_prover]
    fn lower_index(&mut self, expr: ExprId, place_expr: ExprId, id_expr: ExprId, dest: Option<Place>, size: usize) -> (res: Result<Value, LowerError>)
        requires
            old(self).ok(),
            expr.0 < old(self).file.exprs@.len(),
            old(self).file.exprs@[expr.0 as int].0 == ExprData::Index(place_expr, id_expr),
            place_expr.0 < expr.0,
            id_expr.0 < expr.0,
            dest matches Some(p) ==> old(self).place_ok(p),
            old(self).types@[expr.0 as int] matches Some(t) && has_layout(t@) && size == type_size(t@),
        ensures
            from_lowering(res),
            final(self).ok(),
            final(self).same_input(old(self)),
            res matches Ok(v) ==> final(self).value_ok(v) && v is LVal,
            dest is None ==> index_emitted(*old(self), *final(self), expr, place_expr, id_expr, res),
        decreases expr.0, 0nat,
    {
        let ghost s0 = *self;
        let ghost nr = s0.builder.next_reg as nat;
        let ghost fits = simple_expr(s0, id_expr) && simple_expr(s0, place_expr)
            && nr + regs_needed(*s0.file, id_expr) + regs_needed(*s0.file, place_expr) + 6 <= usize::MAX;
        proof {
            reveal(simple_lowered);
        }
        let iv = self.lower_value(id_expr, None)?;
        let ghost s1 = *self;
        let id = self.load_scalar(iv)?;
        let ghost s2 = *self;
        let size_reg = self.new_reg()?;
        self.builder.push_instr(Inst::LoadInt(size_reg, size));
        let offset_reg = self.new_reg()?;
        self.builder.push_instr(Inst::Mul(offset_reg, size_reg, id));
        let ghost s6 = *self;
        proof {
            if fits {
                let (c, v0, n1) = simple_code(s0, id_expr, nr);
                let (l, x, n2) = scalar_load(v0, n1);
                lemma_appended_trans(s0.builder, s1.builder, s2.builder, c, l);
                assert(s6.builder.current_instrs() =~= s0.builder.current_instrs() + c + l
                    + seq![Inst::LoadInt(Reg(n2 as usize), simple_size(s0, expr)), Inst::Mul(Reg((n2 + 1) as usize), Reg(n2 as usize), x)]);
                lemma_simple_frame(s0, s6, place_expr);
            }
        }
        let pv = self.lower_value(place_expr, None)?;
        let ghost s7 = *self;
        proof {
            if fits {
                lemma_extends_appended(s6.builder, s7.builder, simple_code(s6, place_expr, s6.builder.next_reg as nat).0);
            }
        }
        let base = match pv {
            Value::LVal(place) => match self.type_of(place_expr)? {
                Type::Array(_, _) => {
                    let a = self.as_addr(place)?;
                    proof {
                        lemma_extends_appended(s7.builder, self.builder, seq![place.addr_instr(a)]);
                    }
                    a
                },
                Type::Slice { .. } => {
                    self.room(1)?;
                    let a = self.builder.load_from_place(place);
                    proof {
                        lemma_extends_appended(s7.builder, self.builder, load_instrs(place, a));
                    }
                    a
                },
                _ => return Err(LowerError::NotIndexable),
            },
            _ => return Err(LowerError::NotIndexable),
        };
        let ghost s8 = *self;
        self.builder.push_instr(Inst::Add(base, base, offset_reg));
        proof {
            if fits {
                lemma_extends_appended(s8.builder, self.builder, seq![Inst::Add(base, base, offset_reg)]);
                lemma_extends_trans(s6.builder, s7.builder, s8.builder);
                lemma_extends_trans(s6.builder, s8.builder, self.builder);
            }
        }
        let v = Value::LVal(Place::DynamicPtr { base, offset: 0 });
        self.write_opt(v, dest, size)?;
        Ok(v)
    }

    /// Lowers the call `expr` of `name` with `args`: each argument into a
    /// register (its address where it takes more than one cell), then the
    /// call, with the address of the result place first where the result
    /// takes more than one cell.
    #[verifier::rlimit(60)]
    #[verifier::spinoff_prover]
    fn lower_call(&mut self, expr: ExprId, name: Ident, args: &Vec<ExprId>, dest: Option<Place>, size: usize) -> (res: Result<Value, LowerError>)
        requires
            old(self).ok(),
            expr.0 < old(self).file.exprs@.len(),
            old(self).file.exprs@[expr.0 as int].0 == ExprData::FnCall(name, *args),
            forall|k: int| 0 <= k < args@.len() ==> (#[trigger] args@[k]).0 < expr.0,
            dest matches Some(p) ==> old(self).place_ok(p),
            old(self).types@[expr.0 as int] matches Some(t) && has_layout(t@) && size == type_size(t@),
        ensures
            from_lowering(res),
            final(self).ok(),
            final(self).same_input(old(self)),
            res matches Ok(v) ==> final(self).value_ok(v) && v is LVal,
            dest is None ==> call_emitted(*old(self), *final(self), expr, name, args@.len(), res)
                && args_passed(*old(self), *final(self), expr, args@, res),
        decreases expr.0, 0nat,
    {
        let file = self.file;
        let ghost s0 = *self;
        let ghost nr = s0.builder.next_reg as nat;
        proof {
            assert(ast::expr_refs_ok(file.exprs@[expr.0 as int].0, expr.0 as int, file.patterns@.len(), file.idents@.len()));
            if !simple_expr(s0, expr) {
                lemma_simple_vacuous(s0, expr);
            }
        }
        let mut vals: Vec<Reg> = Vec::new();
        let mut i: usize = 0;
        let ghost fit = args_fit(s0, args@, nr);
        proof {
            assert(self.builder.current_instrs() =~= s0.builder.current_instrs() + Seq::<Inst>::empty());
            assert(vals@ =~= Seq::<Reg>::empty());
        }
        while i < args.len()
            invariant
                s0 == *old(self),
                nr == s0.builder.next_reg,
                fit == args_fit(s0, args@, nr),
                fit ==> {
                    let (code, regs, n) = args_code(s0, args@.take(i as int), nr);
                    &&& self.scopes == s0.scopes
                    &&& self.builder.appended_regs(&s0.builder, code)
                    &&& self.builder.next_reg == n
                    &&& vals@ == regs
                },
                self.ok(),
                self.same_input(old(self)),
                self.file == file,
                forall|k: int| 0 <= k < args@.len() ==> (#[trigger] args@[k]).0 < expr.0,
                expr.0 < file.exprs@.len(),
                forall|k: int| 0 <= k < vals@.len() ==> (#[trigger] vals@[k]).0 < self.builder.next_reg,
                dest matches Some(p) ==> self.place_ok(p),
                lowering_refused(old(self).types@, expr) is None,
                old(self).file.exprs@[expr.0 as int].0 is FnCall,
                forall|a: LowerCtx, d: Option<Place>, r: Result<Value, LowerError>| #[trigger] simple_lowered(*old(self), a, expr, d, r),
                vals@.len() == i,
                i <= args@.len(),
            decreases args.len() - i,
        {
            let e = args[i];
            let ghost si = *self;
            proof {
                reveal(simple_lowered);
                assert(args@.take(i + 1).drop_last() =~= args@.take(i as int));
                assert(args@.take(i + 1).last() == e);
                if fit {
                    lemma_args_fit_prefix(s0, args@, nr, i + 1);
                    assert(args_fit(s0, args@.take(i + 1), nr));
                    lemma_simple_frame(s0, si, e);
                    lemma_simple_code_frame(s0, si, e, si.builder.next_reg as nat);
                }
            }
            let coercions = self.coercions;
            let arg_size = match &coercions[e.0] {
                Some(Coercion::ArrayPtrToSlice) => 2,
                None => {
                    let t = self.type_of(e)?;
                    Self::size_of(t)?
                },
            };
            let val = self.lower_value(e, None)?;
            let ghost sv = *self;
            if arg_size <= 1 {
                let r = self.load_scalar(val)?;
                vals.push(r);
            } else {
                match val {
                    Value::LVal(place) => {
                        let r = self.as_addr(place)?;
                        vals.push(r);
                    },
                    _ => return Err(LowerError::NotAPlace),
                }
            }
            proof {
                if fit {
                    let c0 = args_code(s0, args@.take(i as int), nr).0;
                    let (c, v, n1) = simple_code(s0, e, si.builder.next_reg as nat);
                    lemma_appended_trans(s0.builder, si.builder, sv.builder, c0, c);
                    lemma_appended_trans(s0.builder, sv.builder, self.builder, c0 + c, scalar_load(v, n1).0);
                }
            }
            i += 1;
        }
        proof {
            assert(args@.take(i as int) =~= args@);
        }
        let ghost sl = *self;
        let ret_reg = self.new_reg()?;
        let ghost sr = *self;
        let ghost slots0 = self.builder.stack_slots@.len();
        let place = match dest {
            Some(d) => d,
            None => {
                if size <= 1 {
                    Place::Reg(ret_reg)
                } else {
                    proof {
                        assert(self.builder.stack_slots@.len() == self.builder.stack_slots.len());
                    }
                    self.stack_place(size)
                }
            },
        };
        let ghost st1 = self.builder.stack_slots@;
        let ghost sp = *self;
        let ghost vals0 = vals@;
        proof {
            assert(sp.builder.current_instrs() == sl.builder.current_instrs());
        }
        if size > 1 {
            let a = self.as_addr(place)?;
            vals.insert(0, a);
            proof {
                assert(vals@[0] == a);
                assert(self.builder.current_instrs().last() == place.addr_instr(a));
                assert(vals@.subrange(1, vals@.len() as int) =~= vals0);
            }
        } else {
            proof {
                assert(vals@.subrange(0, vals@.len() as int) =~= vals0);
            }
        }
        let ghost sa = *self;
        proof {
            assert(sa.builder.current_instrs().len() >= sl.builder.current_instrs().len());
            assert(sa.builder.current_instrs().subrange(0, sl.builder.current_instrs().len() as int) =~= sl.builder.current_instrs());
        }
        let callee = file.idents[name.0].clone();
        let ghost nv = vals@.len();
        self.builder.push_instr(Inst::FnCall(ret_reg, callee, vals));
        proof {
            assert(self.builder.current_instrs().last() == Inst::FnCall(ret_reg, callee, vals));
            assert(self.builder.stack_slots@ == st1);
            assert(self.builder.current_instrs().subrange(0, sl.builder.current_instrs().len() as int) =~= sl.builder.current_instrs());
        }
        if size <= 1 {
            let v = Value::LVal(Place::Reg(ret_reg));
            self.write_opt(v, dest, size)?;
        }
        Ok(Value::LVal(place))
    }

    /// Lowers the operation `op` of `e1` and `e2`, which is `expr`, into a
    /// new register, and writes it into `dest` if one is given. There is no
    /// instruction for division, which is refused.
    fn lower_binop(&mut self, expr: ExprId, op: Op, e1: ExprId, e2: ExprId, dest: Option<Place>, size: usize) -> (res: Result<Value, LowerError>)
        requires
            old(self).ok(),
            expr.0 < old(self).file.exprs@.len(),
            old(self).file.exprs@[expr.0 as int].0 == ExprData::BinOp(op, e1, e2),
            e1.0 < expr.0,
            e2.0 < expr.0,
            dest matches Some(p) ==> old(self).place_ok(p),
            old(self).types@[expr.0 as int] matches Some(t) && has_layout(t@) && size == type_size(t@),
        ensures
            from_lowering(res),
            final(self).ok(),
            final(self).same_input(old(self)),
            res matches Ok(v) ==> final(self).value_ok(v) && v is LVal && !(op is Div),
            dest is None ==> (res matches Ok(v) ==> binop_emitted(final(self).builder, op, v)),
            simple_lowered(*old(self), *final(self), expr, dest, res),
            op is Div ==> res == Err::<Value, LowerError>(LowerError::UnsupportedDivision),
        decreases expr.0, 0nat,
    {
        let ghost s0 = *self;
        let ghost nr = s0.builder.next_reg as nat;
        let ghost fits = simple_expr(s0, expr) && s0.builder.next_reg + regs_needed(*s0.file, expr) + 2 <= usize::MAX;
        proof {
            reveal(simple_lowered);
        }
        if let Op::Div = op {
            return Err(LowerError::UnsupportedDivision);
        }
        proof {
            if fits {
                assert(simple_expr(s0, e1) && simple_expr(s0, e2));
                assert(regs_needed(*s0.file, expr) == regs_needed(*s0.file, e1) + regs_needed(*s0.file, e2) + 3);
            }
        }
        let lv = self.lower_value(e1, None)?;
        let ghost s1 = *self;
        let v1 = self.load_scalar(lv)?;
        let ghost s2 = *self;
        proof {
            if fits {
                assert(s1.scopes == s0.scopes);
                lemma_simple_frame(s0, s2, e2);
                lemma_simple_code_frame(s0, s2, e2, s2.builder.next_reg as nat);
                lemma_appended_trans(s0.builder, s1.builder, s2.builder, simple_code(s0, e1, nr).0, scalar_load(lv, s1.builder.next_reg as nat).0);
            }
        }
        let rv = self.lower_value(e2, None)?;
        let ghost s3 = *self;
        let v2 = self.load_scalar(rv)?;
        let ghost s4 = *self;
        let reg = self.new_reg()?;
        let inst = match op {
            Op::Add => Inst::Add(reg, v1, v2),
            Op::Sub => Inst::Sub(reg, v1, v2),
            Op::Mul => Inst::Mul(reg, v1, v2),
            Op::Div => return Err(LowerError::UnsupportedDivision),
            Op::Le => Inst::CmpLe(reg, v1, v2),
            Op::Eq => Inst::CmpEq(reg, v1, v2),
        };
        let ghost s5 = *self;
        self.builder.push_instr(inst);
        proof {
            assert(binop_inst(op, reg, v1, v2) == Some(self.builder.current_instrs().last()));
            if fits {
                let c1 = simple_code(s0, e1, nr).0;
                let l1 = scalar_load(lv, s1.builder.next_reg as nat).0;
                let c2 = simple_code(s2, e2, s2.builder.next_reg as nat).0;
                let l2 = scalar_load(rv, s3.builder.next_reg as nat).0;
                lemma_appended_trans(s0.builder, s2.builder, s3.builder, c1 + l1, c2);
                lemma_appended_trans(s0.builder, s3.builder, s4.builder, c1 + l1 + c2, l2);
                assert(s5.builder.appended_regs(&s4.builder, Seq::empty()));
                lemma_appended_trans(s0.builder, s4.builder, s5.builder, c1 + l1 + c2 + l2, Seq::empty());
                assert(c1 + l1 + c2 + l2 + Seq::<Inst>::empty() =~= c1 + l1 + c2 + l2);
                lemma_appended_trans(s0.builder, s5.builder, self.builder, c1 + l1 + c2 + l2, seq![inst]);
                assert(simple_code(s0, expr, nr).0 == c1 + l1 + c2 + l2 + seq![inst]);
            }
        }
        let v = Value::LVal(Place::Reg(reg));
        let ghost s6 = *self;
        self.write_opt(v, dest, size)?;
        proof {
            if fits {
                if let Some(p) = dest {
                    lemma_appended_trans(s0.builder, s6.builder, self.builder, simple_code(s0, expr, nr).0,
                        write_instrs(v, p, size, s6.builder.next_reg));
                }
            }
        }
        Ok(v)
    }

    /// Matches the value `s` of type `tp` against `pat`: binds its
    /// variables, and branches to `fail_block` where a refutable part does
    /// not match.
    pub fn lower_pat(&mut self, pat: PatternId, s: Value, fail_block: Option<BlockId>, tp: &Type) -> (res: Result<(), LowerError>)
        requires
            old(self).ok(),
            old(self).value_ok(s),
            pat.0 < old(self).file.patterns@.len(),
            fail_block matches Some(b) ==> b.0 < old(self).builder.blocks@.len(),
        ensures
            from_lowering(res),
            final(self).ok(),
            final(self).same_input(old(self)),
            res is Ok ==> final(self).binds_only(old(self), pat_vars(*old(self).file, pat)),
            (old(self).file.patterns@[pat.0 as int].0 is True || old(self).file.patterns@[pat.0 as int].0 is False)
                && fail_block is None ==> res is Err,
            old(self).file.patterns@[pat.0 as int].0 is Tuple && (!(s is LVal) || !(*tp is Tuple))
                ==> res == Err::<(), LowerError>(LowerError::NotATuple),
            fail_block matches Some(fb) ==> ((old(self).file.patterns@[pat.0 as int].0 is True || old(self).file.patterns@[pat.0 as int].0 is False)
                && res is Ok ==> literal_tested(*old(self), *final(self), old(self).file.patterns@[pat.0 as int].0 is True, fb, s)),
            old(self).file.patterns@[pat.0 as int].0 is Wildcard ==> res is Ok && *final(self) == *old(self),
            old(self).file.patterns@[pat.0 as int].0 matches PatternData::Var { name, .. } ==> var_stored(*old(self), *final(self), name, s, tp@, res),
        decreases pat.0,
    {
        let ghost s0 = *self;
        let file = self.file;
        proof {
            assert(ast::pattern_refs_ok(file.patterns@[pat.0 as int].0, pat.0 as int, file.idents@.len()));
        }
        match &file.patterns[pat.0].0 {
            PatternData::Wildcard => {
                proof {
                    lemma_binds_only_refl(self, pat_vars(*file, pat));
                }
                Ok(())
            },
            PatternData::True | PatternData::False => {
                let is_true = match &file.patterns[pat.0].0 {
                    PatternData::True => true,
                    _ => false,
                };
                let cond = self.load_scalar(s)?;
                let ghost b0 = self.builder;
                proof {
                    assert(b0.current_instrs() == s0.builder.current_instrs() + scalar_load(s, s0.builder.next_reg as nat).0);
                }
                let success = self.builder.new_block();
                proof {
                    assert(b0.current_block == s0.builder.current_block);
                    assert(b0.blocks@.len() == s0.builder.blocks@.len());
                    assert(b0.blocks@.len() == b0.blocks.len());
                    assert(success.0 == s0.builder.blocks@.len());
                }
                let fail = match fail_block {
                    Some(b) => b,
                    None => return Err(LowerError::RefutablePattern),
                };
                let ghost b1 = self.builder;
                if is_true {
                    self.builder.finish_block(Terminator::BranchIf { cond, th: success, el: fail });
                } else {
                    // if cond is true, then the pattern failed
                    self.builder.finish_block(Terminator::BranchIf { cond, th: fail, el: success });
                }
                self.builder.switch_to_block(success);
                proof {
                    assert(s0.builder.current_block.0 < s0.builder.blocks@.len());
                    assert(success.0 != b1.current_block.0);
                    assert(self.builder.blocks@[success.0 as int] == b1.blocks@[success.0 as int]);
                    assert(is_true == (s0.file.patterns@[pat.0 as int].0 is True));
                    assert(b1.current_instrs() == b0.current_instrs());
                    assert(self.builder.blocks@[s0.builder.current_block.0 as int].instrs@ == b1.current_instrs());
                    assert(self.scopes@.last()@.subrange(0, s0.scopes@.last()@.len() as int) =~= s0.scopes@.last()@);
                    assert(self.binds_only(&s0, pat_vars(*file, pat)));
                }
                Ok(())
            },
            PatternData::Tuple(pats) => match s {
                Value::LVal(place) => {
                    let tps = match tp {
                        Type::Tuple(tps) => tps,
                        _ => return Err(LowerError::NotATuple),
                    };
                    let mut offset: usize = 0;
                    let mut i: usize = 0;
                    proof {
                        lemma_binds_only_refl(self, pat_vars(*file, pat));
                    }
                    while i < pats.len() && i < tps.len()
                        invariant
                            self.ok(),
                            self.same_input(old(self)),
                            self.file == file,
                            forall|k: int| 0 <= k < pats@.len() ==> (#[trigger] pats@[k]).0 < pat.0,
                            pat.0 < file.patterns@.len(),
                            fail_block matches Some(b) ==> b.0 < self.builder.blocks@.len(),
                            self.place_ok(place),
                            s0 == *old(self),
                            s == Value::LVal(place),
                            *tp matches Type::Tuple(_),
                            file.patterns@[pat.0 as int].0 == PatternData::Tuple(*pats),
                            self.binds_only(&s0, pat_vars(*file, pat)),
                        decreases pats.len() - i,
                    {
                        let p = Self::add_offset(place, offset)?;
                        let ghost s1 = *self;
                        proof {
                            lemma_pat_vars_part(*file, pat, i as int);
                        }
                        self.lower_pat(pats[i], Value::LVal(p), fail_block, &tps[i])?;
                        proof {
                            lemma_binds_only_trans(&s0, &s1, self, pat_vars(*file, pat), pat_vars(*file, pats@[i as int]));
                        }
                        let size = Self::size_of(&tps[i])?;
                        if offset > usize::MAX - size {
                            return Err(LowerError::TooLarge);
                        }
                        offset = offset + size;
                        i += 1;
                    }
                    Ok(())
                },
                _ => Err(LowerError::NotATuple),
            },
            PatternData::Var { name, .. } => {
                // Every variable is kept in a stack slot of its own.
                let size = Self::size_of(tp)?;
                let place = self.stack_place(size);
                self.write_value(s, place, size)?;
                let ghost s1 = *self;
                self.extend(*name, Value::LVal(place));
                proof {
                    assert(pat_vars(*file, pat) == seq![*name]);
                    assert(pat_vars(*file, pat)[0] == *name);
                    assert(self.scopes@.last()@.subrange(0, s0.scopes@.last()@.len() as int) =~= s0.scopes@.last()@);
                    assert(self.binds_only(&s0, pat_vars(*file, pat)));
                }
                Ok(())
            },
        }
    }

    /// Lowers `expr`, a thin pointer to an array, to a slice: the pointer
    /// followed by the array's length.
    fn lower_array_ptr_to_slice(&mut self, expr: ExprId, dest: Option<Place>) -> (res: Result<Value, LowerError>)
        requires
            old(self).ok(),
            expr.0 < old(self).file.exprs@.len(),
            dest matches Some(p) ==> old(self).place_ok(p),
        ensures
            from_lowering(res),
            final(self).ok(),
            final(self).same_input(old(self)),
            res matches Ok(v) ==> final(self).value_ok(v),
            res matches Ok(v) ==> slice_of_array_ptr(old(self).types@, expr, dest, v),
            res matches Ok(v) ==> fat_pointer_made(old(self).types@, expr, dest, old(self).builder.stack_slots@.len(), final(self).builder, v),
            res matches Ok(v) ==> thin_pointer_stored(*old(self), *final(self), expr, v),
        decreases expr.0, 2nat,
    {
        let ghost s0 = *self;
        let pv = self.lower_value_inner(expr, None)?;
        let ghost s1 = *self;
        let thin_ptr_reg = self.load_scalar(pv)?;
        let arr_type = self.type_of(expr)?;
        let len = match arr_type {
            Type::Ptr { tp, .. } => match &**tp {
                Type::Array(len, _) => *len,
                _ => return Err(LowerError::BadCoercion),
            },
            _ => return Err(LowerError::BadCoercion),
        };
        let len_reg = self.new_reg()?;
        self.builder.push_instr(Inst::LoadInt(len_reg, len));
        let ghost b1 = self.builder;
        let ghost slots1 = self.builder.stack_slots@.len();
        let place = match dest {
            Some(d) => d,
            None => self.stack_place(2),
        };
        let ghost b2 = self.builder;
        self.builder.store_to_place(place, thin_ptr_reg);
        let second = Self::add_offset(place, 1)?;
        self.builder.store_to_place(second, len_reg);
        proof {
            let is = self.builder.current_instrs();
            assert(b2.current_instrs() == b1.current_instrs());
            assert(is == b1.current_instrs() + seq![store_instr(place, thin_ptr_reg)] + seq![store_instr(second, len_reg)]);
            assert(b1.current_instrs().last() == Inst::LoadInt(len_reg, len));
            assert(is.subrange(is.len() - 3, is.len() as int)
                =~= seq![Inst::LoadInt(len_reg, len), store_instr(place, thin_ptr_reg), store_instr(place.spec_add_offset(1), len_reg)]);
            assert(slots1 >= old(self).builder.stack_slots@.len());
            assert(exists|t: Reg, l: Reg| is.subrange(is.len() - 3, is.len() as int)
                == seq![Inst::LoadInt(l, len), store_instr(place, t), store_instr(place.spec_add_offset(1), l)]);
            assert(old(self).types@[expr.0 as int] == Some(*arr_type));
            if dest is None {
                assert(b1.stack_slots@.len() == b1.stack_slots.len());
                assert(place matches Place::Stack { slot, offset } && offset == 0 && slot.0 == slots1);
                assert(self.builder.stack_slots@ == b2.stack_slots@);
                assert(b2.stack_slots@[slots1 as int].size == 2);
            }
        }
        Ok(Value::LVal(place))
    }
}

impl<'a> LowerCtx<'a> {
    /// `self` differs from `old` in its scopes only by bindings appended to
    /// the innermost scope, each of one of the names `names`.
    pub open spec fn binds_only(&self, old: &LowerCtx<'a>, names: Seq<Ident>) -> bool {
        &&& self.scopes@.len() == old.scopes@.len()
        &&& self.scopes@.drop_last() == old.scopes@.drop_last()
        &&& old.scopes@.last()@.len() <= self.scopes@.last()@.len()
        &&& self.scopes@.last()@.subrange(0, old.scopes@.last()@.len() as int) == old.scopes@.last()@
        &&& forall|k: int| old.scopes@.last()@.len() <= k < self.scopes@.last()@.len()
            ==> names.contains(#[trigger] self.scopes@.last()@[k].0)
    }
}

proof fn lemma_binds_only_refl(a: &LowerCtx, names: Seq<Ident>)
    requires
        a.scopes@.len() > 0,
    ensures
        a.binds_only(a, names),
{
    assert(a.scopes@.last()@.subrange(0, a.scopes@.last()@.len() as int) =~= a.scopes@.last()@);
}

proof fn lemma_binds_only_trans(a: &LowerCtx, b: &LowerCtx, c: &LowerCtx, names: Seq<Ident>, part: Seq<Ident>)
    requires
        b.binds_only(a, names),
        c.binds_only(b, part),
        forall|x: Ident| part.contains(x) ==> names.contains(x),
        a.scopes@.len() > 0,
    ensures
        c.binds_only(a, names),
{
    let la = a.scopes@.last()@;
    let lb = b.scopes@.last()@;
    let lc = c.scopes@.last()@;
    assert(lc.subrange(0, la.len() as int) =~= lb.subrange(0, la.len() as int));
    assert forall|k: int| la.len() <= k < lc.len() implies names.contains(#[trigger] lc[k].0) by {
        if k < lb.len() {
            assert(lc[k] == lb[k]);
        } else {
            assert(part.contains(lc[k].0));
        }
    }
    assert(c.scopes@.drop_last() == a.scopes@.drop_last());
}

/// The variables of a part of a tuple pattern are variables of the whole.
proof fn lemma_pat_vars_part(f: File, pat: PatternId, i: int)
    requires
        f.wf(),
        pat.0 < f.patterns@.len(),
        f.patterns@[pat.0 as int].0 matches PatternData::Tuple(ps) && 0 <= i < ps@.len(),
    ensures
        f.patterns@[pat.0 as int].0 matches PatternData::Tuple(ps)
            && forall|x: Ident| pat_vars(f, ps@[i]).contains(x) ==> pat_vars(f, pat).contains(x),
{
    if let PatternData::Tuple(ps) = f.patterns@[pat.0 as int].0 {
        assert(ast::pattern_refs_ok(f.patterns@[pat.0 as int].0, pat.0 as int, f.idents@.len()));
        assert(pat_vars(f, pat) == pats_vars(f, ps@, pat.0 as nat));
        lemma_pats_vars_part(f, ps@, pat.0 as nat, i);
    }
}

proof fn lemma_pats_vars_part(f: File, ps: Seq<PatternId>, bound: nat, i: int)
    requires
        0 <= i < ps.len(),
        ps[i].0 < bound,
    ensures
        forall|x: Ident| pat_vars(f, ps[i]).contains(x) ==> pats_vars(f, ps, bound).contains(x),
    decreases ps.len(),
{
    assert forall|x: Ident| pat_vars(f, ps[i]).contains(x) implies pats_vars(f, ps, bound).contains(x) by {
        let prev = pats_vars(f, ps.drop_last(), bound);
        let last = if ps.last().0 < bound { pat_vars(f, ps.last()) } else { Seq::empty() };
        assert(pats_vars(f, ps, bound) == prev + last);
        if i == ps.len() - 1 {
            let k = choose|k: int| 0 <= k < last.len() && last[k] == x;
            assert((prev + last)[prev.len() + k] == x);
        } else {
            lemma_pats_vars_part(f, ps.drop_last(), bound, i);
            assert(ps.drop_last()[i] == ps[i]);
            assert(pat_vars(f, ps.drop_last()[i]).contains(x));
            assert(prev.contains(x));
            let k = choose|k: int| 0 <= k < prev.len() && prev[k] == x;
            assert((prev + last)[k] == x);
        }
    }
}

} // verus!
