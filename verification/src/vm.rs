//! The virtual machine that runs the register IR.
//!
//! The machine is driven one step at a time: every step executes one
//! instruction or one block terminator of the innermost active call. Calls
//! push a frame; returns pop it. Numbers printed by the built-in `printnum`
//! are collected in `output` in the order they are printed.

use crate::bytecode::ir::{self, inst_ok, term_ok, Func, Inst, Prog, Reg, StackSlot, Terminator};
use vstd::prelude::*;

verus! {

/// Number of cells of the VM's stack memory.
pub const STACK_SIZE: usize = 1024;

#[derive(Debug, Clone, Copy, PartialEq, Eq, PartialOrd, Ord, Structural)]
pub enum Value {
    Null,
    True,
    False,
    Int(usize),
    Ptr(usize),
}

/// Why the machine stopped on an instruction it cannot execute.
#[derive(Debug, Clone, Copy, PartialEq, Eq, Structural)]
pub enum Trap {
    /// A register index beyond the frame's registers.
    BadRegister,
    /// A block index beyond the function's blocks.
    BadBlock,
    /// A stack-slot index beyond the function's slots.
    BadSlot,
    /// A memory access outside the stack memory.
    OutOfBounds,
    /// An operand of the wrong kind (e.g. adding two booleans).
    TypeMismatch,
    /// An address or integer computation that does not fit in `usize`.
    Overflow,
    /// A call of a function that the program does not define.
    UnknownFunction,
    /// A call with more arguments than the callee has registers.
    TooManyArguments,
    /// `printnum` called without an argument.
    MissingArgument,
}

/// The outcome of one step.
#[derive(Debug, Clone, Copy, PartialEq, Eq, Structural)]
pub enum Step {
    /// The machine can go on.
    Running,
    /// The outermost call returned this value.
    Finished(Value),
    /// The machine stopped; its state is unchanged except for the output.
    Trapped(Trap),
}

/// An activation of a function.
pub struct Frame {
    /// Index of the function in the program.
    pub func: usize,
    /// The block being executed.
    pub block: usize,
    /// The position of the next instruction in that block.
    pub ip: usize,
    pub regs: Vec<Value>,
    /// Where the frame's stack slots start.
    pub bp: usize,
    /// Where each stack slot starts, relative to `bp`.
    pub slot_offsets: Vec<usize>,
    /// The caller's register that receives the result.
    pub ret: Reg,
}

pub struct FrameV {
    pub func: usize,
    pub block: usize,
    pub ip: usize,
    pub regs: Seq<Value>,
    pub bp: usize,
    pub slot_offsets: Seq<usize>,
    pub ret: Reg,
}

impl View for Frame {
    type V = FrameV;

    open spec fn view(&self) -> FrameV {
        FrameV {
            func: self.func,
            block: self.block,
            ip: self.ip,
            regs: self.regs@,
            bp: self.bp,
            slot_offsets: self.slot_offsets@,
            ret: self.ret,
        }
    }
}

pub struct VM {
    /// The program's functions; the names are distinct.
    pub funcs: Vec<(String, Func)>,
    pub stack: Vec<Value>,
    pub stack_ptr: usize,
    /// The active calls, innermost last.
    pub frames: Vec<Frame>,
    /// Everything `printnum` printed so far.
    pub output: Vec<usize>,
}

/// The state of the machine, apart from its program.
pub struct VmState {
    pub stack: Seq<Value>,
    pub stack_ptr: usize,
    pub frames: Seq<FrameV>,
    pub output: Seq<usize>,
}

impl View for VM {
    type V = VmState;

    open spec fn view(&self) -> VmState {
        VmState {
            stack: self.stack@,
            stack_ptr: self.stack_ptr,
            frames: self.frames@.map_values(|f: Frame| f@),
            output: self.output@,
        }
    }
}

// ---------------------------------------------------------------------------
// Semantics

/// The position of a value kind in the order of `Value`'s variants.
pub open spec fn value_rank(v: Value) -> int {
    match v {
        Value::Null => 0,
        Value::True => 1,
        Value::False => 2,
        Value::Int(_) => 3,
        Value::Ptr(_) => 4,
    }
}

pub open spec fn value_payload(v: Value) -> int {
    match v {
        Value::Int(n) => n as int,
        Value::Ptr(n) => n as int,
        _ => 0,
    }
}

/// `a <= b` in the order of `Value`: by variant, then by payload.
pub open spec fn value_le(a: Value, b: Value) -> bool {
    value_rank(a) < value_rank(b) || (value_rank(a) == value_rank(b) && value_payload(a)
        <= value_payload(b))
}

pub open spec fn bool_value(b: bool) -> Value {
    if b {
        Value::True
    } else {
        Value::False
    }
}

/// The functions' names as sequences of characters.
pub open spec fn names_distinct(funcs: Seq<(String, Func)>) -> bool {
    forall|i: int, j: int|
        0 <= i < funcs.len() && 0 <= j < funcs.len() && i != j ==> (#[trigger] funcs[i]).0@
            != (#[trigger] funcs[j]).0@
}

/// The index of the function named `name`, if there is one.
pub open spec fn find_func(funcs: Seq<(String, Func)>, name: Seq<char>) -> Option<int> {
    if exists|i: int| 0 <= i < funcs.len() && (#[trigger] funcs[i]).0@ == name {
        Some(choose|i: int| 0 <= i < funcs.len() && (#[trigger] funcs[i]).0@ == name)
    } else {
        None
    }
}

/// The name of the built-in that prints a number.
pub open spec fn printnum_name() -> Seq<char> {
    seq!['p', 'r', 'i', 'n', 't', 'n', 'u', 'm']
}

/// Total size of the first `k` stack slots.
pub open spec fn slots_total(slots: Seq<StackSlot>, k: int) -> nat
    decreases k,
{
    if k <= 0 {
        0
    } else {
        slots_total(slots, k - 1) + (slots[k - 1].size as nat)
    }
}

/// The frame that a call of `funcs[fi]` with `args` starts, at stack pointer
/// `sp`, or why it cannot start.
pub open spec fn enter(funcs: Seq<(String, Func)>, fi: int, args: Seq<Value>, sp: usize, ret: Reg)
    -> Result<(FrameV, usize), Trap>
{
    let func = funcs[fi].1;
    let slots = func.stack_slots@;
    let total = slots_total(slots, slots.len() as int);
    if args.len() > func.register_count {
        Err(Trap::TooManyArguments)
    } else if total > usize::MAX {
        Err(Trap::Overflow)
    } else if sp + total > usize::MAX {
        Err(Trap::Overflow)
    } else {
        let regs = Seq::new(
            func.register_count as nat,
            |i: int| if i < args.len() { args[i] } else { Value::Null },
        );
        let offsets = Seq::new(slots.len(), |i: int| slots_total(slots, i) as usize);
        Ok((FrameV { func: fi as usize, block: 0, ip: 0, regs, bp: sp, slot_offsets: offsets, ret }, (sp + total) as usize))
    }
}

/// `f` with register `r` set to `v` and its instruction pointer advanced.
pub open spec fn set_reg(f: FrameV, r: Reg, v: Value) -> FrameV {
    FrameV { regs: f.regs.update(r.0 as int, v), ip: (f.ip + 1) as usize, ..f }
}

/// `s` with its innermost frame replaced by `f`.
pub open spec fn with_top(s: VmState, f: FrameV) -> VmState {
    VmState { frames: s.frames.update(s.frames.len() - 1, f), ..s }
}

/// The address of cell `off` of stack slot `ss` of frame `f`.
pub open spec fn slot_addr(f: FrameV, ss: ir::StackSlotId, off: usize) -> Result<usize, Trap> {
    if ss.0 >= f.slot_offsets.len() {
        Err(Trap::BadSlot)
    } else if f.bp + f.slot_offsets[ss.0 as int] + off > usize::MAX {
        Err(Trap::Overflow)
    } else {
        Ok((f.bp + f.slot_offsets[ss.0 as int] + off) as usize)
    }
}

/// Copies `len` cells from `src` to `dst` one at a time, lowest first.
pub open spec fn mem_copy(stack: Seq<Value>, src: int, dst: int, len: nat) -> Seq<Value>
    decreases len,
{
    if len == 0 {
        stack
    } else {
        let s = mem_copy(stack, src, dst, (len - 1) as nat);
        s.update(dst + len - 1, s[src + len - 1])
    }
}

pub open spec fn trap(s: VmState, t: Trap) -> (VmState, Step) {
    (s, Step::Trapped(t))
}

pub open spec fn running(s: VmState) -> (VmState, Step) {
    (s, Step::Running)
}

/// One step of the instruction `inst` of the innermost frame `f` of `s`.
pub open spec fn inst_step(funcs: Seq<(String, Func)>, s: VmState, f: FrameV, inst: Inst) -> (
    VmState,
    Step,
) {
    let regs = f.regs;
    let n = regs.len();
    match inst {
        Inst::LoadInt(r, k) => if r.0 < n {
            running(with_top(s, set_reg(f, r, Value::Int(k))))
        } else {
            trap(s, Trap::BadRegister)
        },
        Inst::LoadBool(r, b) => if r.0 < n {
            running(with_top(s, set_reg(f, r, bool_value(b))))
        } else {
            trap(s, Trap::BadRegister)
        },
        Inst::Assign(r, a) => if a.0 < n && r.0 < n {
            running(with_top(s, set_reg(f, r, regs[a.0 as int])))
        } else {
            trap(s, Trap::BadRegister)
        },
        Inst::Add(r, a, b) => if a.0 < n && b.0 < n {
            let res = match (regs[a.0 as int], regs[b.0 as int]) {
                (Value::Int(x), Value::Int(y)) => if x + y <= usize::MAX {
                    Ok(Value::Int((x + y) as usize))
                } else {
                    Err(Trap::Overflow)
                },
                (Value::Ptr(x), Value::Int(y)) => if x + y <= usize::MAX {
                    Ok(Value::Ptr((x + y) as usize))
                } else {
                    Err(Trap::Overflow)
                },
                (Value::Int(x), Value::Ptr(y)) => if x + y <= usize::MAX {
                    Ok(Value::Ptr((x + y) as usize))
                } else {
                    Err(Trap::Overflow)
                },
                _ => Err(Trap::TypeMismatch),
            };
            match res {
                Ok(v) => if r.0 < n {
                    running(with_top(s, set_reg(f, r, v)))
                } else {
                    trap(s, Trap::BadRegister)
                },
                Err(t) => trap(s, t),
            }
        } else {
            trap(s, Trap::BadRegister)
        },
        Inst::Sub(r, a, b) => if a.0 < n && b.0 < n {
            match (regs[a.0 as int], regs[b.0 as int]) {
                (Value::Int(x), Value::Int(y)) => if x >= y {
                    if r.0 < n {
                        running(with_top(s, set_reg(f, r, Value::Int((x - y) as usize))))
                    } else {
                        trap(s, Trap::BadRegister)
                    }
                } else {
                    trap(s, Trap::Overflow)
                },
                _ => trap(s, Trap::TypeMismatch),
            }
        } else {
            trap(s, Trap::BadRegister)
        },
        Inst::Mul(r, a, b) => if a.0 < n && b.0 < n {
            match (regs[a.0 as int], regs[b.0 as int]) {
                (Value::Int(x), Value::Int(y)) => if x * y <= usize::MAX {
                    if r.0 < n {
                        running(with_top(s, set_reg(f, r, Value::Int((x * y) as usize))))
                    } else {
                        trap(s, Trap::BadRegister)
                    }
                } else {
                    trap(s, Trap::Overflow)
                },
                _ => trap(s, Trap::TypeMismatch),
            }
        } else {
            trap(s, Trap::BadRegister)
        },
        Inst::AddImm(r, a, k) => if a.0 < n {
            match regs[a.0 as int] {
                Value::Int(m) => if k + m <= usize::MAX {
                    if r.0 < n {
                        running(with_top(s, set_reg(f, r, Value::Int((k + m) as usize))))
                    } else {
                        trap(s, Trap::BadRegister)
                    }
                } else {
                    trap(s, Trap::Overflow)
                },
                Value::Ptr(m) => if k + m <= usize::MAX {
                    if r.0 < n {
                        running(with_top(s, set_reg(f, r, Value::Ptr((k + m) as usize))))
                    } else {
                        trap(s, Trap::BadRegister)
                    }
                } else {
                    trap(s, Trap::Overflow)
                },
                _ => trap(s, Trap::TypeMismatch),
            }
        } else {
            trap(s, Trap::BadRegister)
        },
        Inst::CmpEq(r, a, b) => if a.0 < n && b.0 < n && r.0 < n {
            running(with_top(s, set_reg(f, r, bool_value(regs[a.0 as int] == regs[b.0 as int]))))
        } else {
            trap(s, Trap::BadRegister)
        },
        Inst::CmpLe(r, a, b) => if a.0 < n && b.0 < n && r.0 < n {
            running(
                with_top(s, set_reg(f, r, bool_value(value_le(regs[a.0 as int], regs[b.0 as int])))),
            )
        } else {
            trap(s, Trap::BadRegister)
        },
        Inst::StackAddr(r, ss, off) => match slot_addr(f, ss, off) {
            Ok(addr) => if r.0 < n {
                running(with_top(s, set_reg(f, r, Value::Ptr(addr))))
            } else {
                trap(s, Trap::BadRegister)
            },
            Err(t) => trap(s, t),
        },
        Inst::StackLoad(r, ss, off) => match slot_addr(f, ss, off) {
            Ok(addr) => if addr >= s.stack.len() {
                trap(s, Trap::OutOfBounds)
            } else if r.0 < n {
                running(with_top(s, set_reg(f, r, s.stack[addr as int])))
            } else {
                trap(s, Trap::BadRegister)
            },
            Err(t) => trap(s, t),
        },
        Inst::StackStore(ss, off, r) => match slot_addr(f, ss, off) {
            Ok(addr) => if r.0 >= n {
                trap(s, Trap::BadRegister)
            } else if addr >= s.stack.len() {
                trap(s, Trap::OutOfBounds)
            } else {
                running(
                    with_top(
                        VmState { stack: s.stack.update(addr as int, regs[r.0 as int]), ..s },
                        FrameV { ip: (f.ip + 1) as usize, ..f },
                    ),
                )
            },
            Err(t) => trap(s, t),
        },
        Inst::Load(r, p, off) => if p.0 < n {
            match regs[p.0 as int] {
                Value::Ptr(addr) => if addr + off > usize::MAX {
                    trap(s, Trap::Overflow)
                } else if addr + off >= s.stack.len() {
                    trap(s, Trap::OutOfBounds)
                } else if r.0 < n {
                    running(with_top(s, set_reg(f, r, s.stack[addr + off])))
                } else {
                    trap(s, Trap::BadRegister)
                },
                _ => trap(s, Trap::TypeMismatch),
            }
        } else {
            trap(s, Trap::BadRegister)
        },
        Inst::Store(p, off, v) => if p.0 < n {
            match regs[p.0 as int] {
                Value::Ptr(addr) => if addr + off > usize::MAX {
                    trap(s, Trap::Overflow)
                } else if v.0 >= n {
                    trap(s, Trap::BadRegister)
                } else if addr + off >= s.stack.len() {
                    trap(s, Trap::OutOfBounds)
                } else {
                    running(
                        with_top(
                            VmState { stack: s.stack.update(addr + off, regs[v.0 as int]), ..s },
                            FrameV { ip: (f.ip + 1) as usize, ..f },
                        ),
                    )
                },
                _ => trap(s, Trap::TypeMismatch),
            }
        } else {
            trap(s, Trap::BadRegister)
        },
        Inst::MemCopy { src, dst, len } => if src.0 < n && dst.0 < n {
            match (regs[src.0 as int], regs[dst.0 as int]) {
                (Value::Ptr(a), Value::Ptr(b)) => if len == 0 {
                    running(with_top(s, FrameV { ip: (f.ip + 1) as usize, ..f }))
                } else if a + len > s.stack.len() || b + len > s.stack.len() {
                    trap(s, Trap::OutOfBounds)
                } else {
                    running(
                        with_top(
                            VmState { stack: mem_copy(s.stack, a as int, b as int, len as nat), ..s },
                            FrameV { ip: (f.ip + 1) as usize, ..f },
                        ),
                    )
                },
                _ => trap(s, Trap::TypeMismatch),
            }
        } else {
            trap(s, Trap::BadRegister)
        },
        Inst::FnCall(r, name, args) => if exists|i: int|
            0 <= i < args@.len() && (#[trigger] args@[i]).0 >= n {
            trap(s, Trap::BadRegister)
        } else {
            let vals = Seq::new(args@.len(), |i: int| regs[args@[i].0 as int]);
            if name@ == printnum_name() {
                if vals.len() == 0 {
                    trap(s, Trap::MissingArgument)
                } else {
                    match vals.last() {
                        Value::Int(k) => {
                            let s2 = VmState { output: s.output.push(k), ..s };
                            if r.0 < n {
                                running(with_top(s2, set_reg(f, r, Value::Null)))
                            } else {
                                trap(s2, Trap::BadRegister)
                            }
                        },
                        _ => trap(s, Trap::TypeMismatch),
                    }
                }
            } else {
                match find_func(funcs, name@) {
                    None => trap(s, Trap::UnknownFunction),
                    Some(fi) => match enter(funcs, fi, vals, s.stack_ptr, r) {
                        Ok((callee, sp)) => running(
                            VmState { frames: s.frames.push(callee), stack_ptr: sp, ..s },
                        ),
                        Err(t) => trap(s, t),
                    },
                }
            }
        },
    }
}

/// A call of a function of the program pushes a new innermost frame for
/// it: at the start of its first block, its first registers holding the
/// arguments' values in order and the rest empty, its base at the old
/// stack pointer, and the caller's target register to receive the result;
/// the caller's frame is left as it was.
pub proof fn lemma_call_law(funcs: Seq<(String, Func)>, s: VmState, r: Reg, name: String, args: Vec<Reg>, fi: int)
    requires
        s.frames.len() > 0,
        forall|i: int| 0 <= i < args@.len() ==> (#[trigger] args@[i]).0 < s.frames.last().regs.len(),
        name@ != printnum_name(),
        funcs.len() <= usize::MAX,
        find_func(funcs, name@) == Some(fi),
        args@.len() <= funcs[fi].1.register_count,
        s.stack_ptr + slots_total(funcs[fi].1.stack_slots@, funcs[fi].1.stack_slots@.len() as int) <= usize::MAX,
    ensures
        ({
            let f = s.frames.last();
            let (s1, st) = inst_step(funcs, s, f, Inst::FnCall(r, name, args));
            let g = s1.frames.last();
            &&& st == Step::Running
            &&& s1.frames.len() == s.frames.len() + 1
            &&& s1.frames.drop_last() == s.frames
            &&& g.func == fi && g.block == 0 && g.ip == 0 && g.ret == r && g.bp == s.stack_ptr
            &&& g.regs.len() == funcs[fi].1.register_count
            &&& forall|i: int| 0 <= i < args@.len() ==> #[trigger] g.regs[i] == f.regs[args@[i].0 as int]
            &&& forall|i: int| args@.len() <= i < g.regs.len() ==> #[trigger] g.regs[i] == Value::Null
        }),
{
    let f = s.frames.last();
    assert(!(exists|i: int| 0 <= i < args@.len() && (#[trigger] args@[i]).0 >= f.regs.len()));
    let vals = Seq::new(args@.len(), |i: int| f.regs[args@[i].0 as int]);
    let e = enter(funcs, fi, vals, s.stack_ptr, r);
    assert(e is Ok);
    let callee = e->Ok_0.0;
    assert(s.frames.push(callee).drop_last() =~= s.frames);
    assert forall|i: int| 0 <= i < args@.len() implies #[trigger] callee.regs[i] == f.regs[args@[i].0 as int] by {
        assert(vals[i] == f.regs[args@[i].0 as int]);
    }
}

/// Calling `printnum` appends its last argument, an integer, to the output,
/// and sets the target register to the empty value.
pub proof fn lemma_printnum_law(funcs: Seq<(String, Func)>, s: VmState, r: Reg, name: String, args: Vec<Reg>, k: usize)
    requires
        s.frames.len() > 0,
        forall|i: int| 0 <= i < args@.len() ==> (#[trigger] args@[i]).0 < s.frames.last().regs.len(),
        r.0 < s.frames.last().regs.len(),
        name@ == printnum_name(),
        args@.len() > 0,
        s.frames.last().regs[args@.last().0 as int] == Value::Int(k),
    ensures
        ({
            let (s1, st) = inst_step(funcs, s, s.frames.last(), Inst::FnCall(r, name, args));
            &&& st == Step::Running
            &&& s1.output == s.output.push(k)
            &&& s1.frames.last().regs[r.0 as int] == Value::Null
            &&& s1.stack == s.stack
        }),
{
}

/// The registers of the innermost frame after a step that went on; the
/// other registers of `f` are those it had before.
pub open spec fn only_reg_changed(f: FrameV, s2: VmState, r: Reg) -> bool {
    &&& s2.frames.len() > 0
    &&& s2.frames.last().regs.len() == f.regs.len()
    &&& forall|k: int| 0 <= k < f.regs.len() && k != r.0 ==> #[trigger] s2.frames.last().regs[k] == f.regs[k]
}

/// A comparison for equality goes on and writes a boolean into its target:
/// true exactly when the two operands hold equal values; nothing else in
/// the frame's registers changes.
pub proof fn lemma_equality_test_law(funcs: Seq<(String, Func)>, s: VmState, f: FrameV, r: Reg, a: Reg, b: Reg)
    requires
        s.frames.len() > 0,
        r.0 < f.regs.len(),
        a.0 < f.regs.len(),
        b.0 < f.regs.len(),
    ensures
        ({
            let (s2, st) = inst_step(funcs, s, f, Inst::CmpEq(r, a, b));
            &&& st == Step::Running
            &&& only_reg_changed(f, s2, r)
            &&& (s2.frames.last().regs[r.0 as int] == Value::True) == (f.regs[a.0 as int] == f.regs[b.0 as int])
            &&& (s2.frames.last().regs[r.0 as int] == Value::False) == (f.regs[a.0 as int] != f.regs[b.0 as int])
        }),
{
}

/// A comparison of two integers writes true exactly when the first is at
/// most the second, and false otherwise.
pub proof fn lemma_order_test_law(funcs: Seq<(String, Func)>, s: VmState, f: FrameV, r: Reg, a: Reg, b: Reg, x: usize, y: usize)
    requires
        s.frames.len() > 0,
        r.0 < f.regs.len(),
        a.0 < f.regs.len(),
        b.0 < f.regs.len(),
        f.regs[a.0 as int] == Value::Int(x),
        f.regs[b.0 as int] == Value::Int(y),
    ensures
        ({
            let (s2, st) = inst_step(funcs, s, f, Inst::CmpLe(r, a, b));
            &&& st == Step::Running
            &&& only_reg_changed(f, s2, r)
            &&& (s2.frames.last().regs[r.0 as int] == Value::True) == (x <= y)
            &&& (s2.frames.last().regs[r.0 as int] == Value::False) == (x > y)
        }),
{
}

/// Arithmetic on two integers writes the mathematical sum, difference or
/// product into its target where it fits in a machine word (and, for a
/// difference, is not negative), and traps otherwise; loading a constant
/// writes that constant.
pub proof fn lemma_arith_law(funcs: Seq<(String, Func)>, s: VmState, f: FrameV, r: Reg, a: Reg, b: Reg, x: usize, y: usize)
    requires
        s.frames.len() > 0,
        r.0 < f.regs.len(),
        a.0 < f.regs.len(),
        b.0 < f.regs.len(),
        f.regs[a.0 as int] == Value::Int(x),
        f.regs[b.0 as int] == Value::Int(y),
    ensures
        ({
            let (s2, st) = inst_step(funcs, s, f, Inst::Add(r, a, b));
            &&& x + y <= usize::MAX ==> st == Step::Running && only_reg_changed(f, s2, r)
                && s2.frames.last().regs[r.0 as int] == Value::Int((x + y) as usize)
            &&& x + y > usize::MAX ==> st == Step::Trapped(Trap::Overflow) && s2 == s
        }),
        ({
            let (s2, st) = inst_step(funcs, s, f, Inst::Sub(r, a, b));
            &&& x >= y ==> st == Step::Running && only_reg_changed(f, s2, r)
                && s2.frames.last().regs[r.0 as int] == Value::Int((x - y) as usize)
            &&& x < y ==> st == Step::Trapped(Trap::Overflow) && s2 == s
        }),
        ({
            let (s2, st) = inst_step(funcs, s, f, Inst::Mul(r, a, b));
            &&& x * y <= usize::MAX ==> st == Step::Running && only_reg_changed(f, s2, r)
                && s2.frames.last().regs[r.0 as int] == Value::Int((x * y) as usize)
            &&& x * y > usize::MAX ==> st == Step::Trapped(Trap::Overflow) && s2 == s
        }),
        ({
            let (s2, st) = inst_step(funcs, s, f, Inst::LoadInt(r, x));
            &&& st == Step::Running && only_reg_changed(f, s2, r)
            &&& s2.frames.last().regs[r.0 as int] == Value::Int(x)
        }),
{
}

/// The address of an element: loading the element size `k` into `sr`,
/// multiplying it by the index `i` held in `x` into `o`, and adding `o` to
/// the base address `p` held in `b` leaves in `b` the address `p + k * i`
/// of the element at index `i`.
pub proof fn lemma_element_address_law(
    funcs: Seq<(String, Func)>,
    s: VmState,
    b: Reg,
    sr: Reg,
    o: Reg,
    x: Reg,
    p: usize,
    i: usize,
    k: usize,
)
    requires
        s.frames.len() > 0,
        b.0 < s.frames.last().regs.len(),
        sr.0 < s.frames.last().regs.len(),
        o.0 < s.frames.last().regs.len(),
        x.0 < s.frames.last().regs.len(),
        b != sr,
        b != o,
        x != sr,
        s.frames.last().regs[x.0 as int] == Value::Int(i),
        s.frames.last().regs[b.0 as int] == Value::Ptr(p),
        k * i <= usize::MAX,
        p + k * i <= usize::MAX,
    ensures
        ({
            let (s1, st1) = inst_step(funcs, s, s.frames.last(), Inst::LoadInt(sr, k));
            let (s2, st2) = inst_step(funcs, s1, s1.frames.last(), Inst::Mul(o, sr, x));
            let (s3, st3) = inst_step(funcs, s2, s2.frames.last(), Inst::Add(b, b, o));
            &&& st1 == Step::Running && st2 == Step::Running && st3 == Step::Running
            &&& s3.frames.last().regs[b.0 as int] == Value::Ptr((p + k * i) as usize)
        }),
{
    let f = s.frames.last();
    let (s1, _) = inst_step(funcs, s, f, Inst::LoadInt(sr, k));
    assert(s1.frames.last().regs[x.0 as int] == Value::Int(i));
    assert(s1.frames.last().regs[b.0 as int] == Value::Ptr(p));
    let (s2, _) = inst_step(funcs, s1, s1.frames.last(), Inst::Mul(o, sr, x));
    assert(s2.frames.last().regs[o.0 as int] == Value::Int((k * i) as usize));
    assert(s2.frames.last().regs[b.0 as int] == Value::Ptr(p));
}

/// A store through a pointer followed by a load through the same pointer
/// and offset reads back the stored value; the store changes no other cell
/// of the stack.
pub proof fn lemma_store_load_law(funcs: Seq<(String, Func)>, s: VmState, p: Reg, off: usize, v: Reg, r: Reg, addr: usize)
    requires
        s.frames.len() > 0,
        p.0 < s.frames.last().regs.len(),
        v.0 < s.frames.last().regs.len(),
        r.0 < s.frames.last().regs.len(),
        s.frames.last().regs[p.0 as int] == Value::Ptr(addr),
        addr + off <= usize::MAX,
        addr + off < s.stack.len(),
    ensures
        ({
            let (s1, st1) = inst_step(funcs, s, s.frames.last(), Inst::Store(p, off, v));
            let (s2, st2) = inst_step(funcs, s1, s1.frames.last(), Inst::Load(r, p, off));
            &&& st1 == Step::Running && st2 == Step::Running
            &&& s1.stack.len() == s.stack.len()
            &&& forall|j: int| 0 <= j < s.stack.len() && j != addr + off ==> #[trigger] s1.stack[j] == s.stack[j]
            &&& s2.frames.last().regs[r.0 as int] == s.frames.last().regs[v.0 as int]
        }),
{
    let f = s.frames.last();
    let (s1, _) = inst_step(funcs, s, f, Inst::Store(p, off, v));
    assert(s1.frames.last().regs == f.regs);
    assert(s1.stack == s.stack.update(addr + off, f.regs[v.0 as int]));
    assert(s1.stack[addr + off] == f.regs[v.0 as int]);
}

/// A store into a cell of a stack slot followed by a load from the same
/// cell reads back the stored value; the store changes no other cell.
pub proof fn lemma_slot_store_load_law(funcs: Seq<(String, Func)>, s: VmState, ss: ir::StackSlotId, off: usize, v: Reg, r: Reg, addr: usize)
    requires
        s.frames.len() > 0,
        v.0 < s.frames.last().regs.len(),
        r.0 < s.frames.last().regs.len(),
        slot_addr(s.frames.last(), ss, off) == Ok::<usize, Trap>(addr),
        addr < s.stack.len(),
    ensures
        ({
            let (s1, st1) = inst_step(funcs, s, s.frames.last(), Inst::StackStore(ss, off, v));
            let (s2, st2) = inst_step(funcs, s1, s1.frames.last(), Inst::StackLoad(r, ss, off));
            &&& st1 == Step::Running && st2 == Step::Running
            &&& s1.stack.len() == s.stack.len()
            &&& forall|j: int| 0 <= j < s.stack.len() && j != addr ==> #[trigger] s1.stack[j] == s.stack[j]
            &&& s2.frames.last().regs[r.0 as int] == s.frames.last().regs[v.0 as int]
        }),
{
    let f = s.frames.last();
    let (s1, _) = inst_step(funcs, s, f, Inst::StackStore(ss, off, v));
    assert(s1.frames.last().regs == f.regs);
    assert(s1.frames.last().slot_offsets == f.slot_offsets && s1.frames.last().bp == f.bp);
    assert(slot_addr(s1.frames.last(), ss, off) == Ok::<usize, Trap>(addr));
    assert(s1.stack[addr as int] == f.regs[v.0 as int]);
}

/// A conditional branch goes to its first target exactly when its
/// condition holds `true`, and to the second otherwise, at the start of the
/// block; a jump goes to the start of its target.
pub proof fn lemma_branch_law(s: VmState, cond: Reg, th: ir::BlockId, el: ir::BlockId, b: ir::BlockId)
    requires
        s.frames.len() > 0,
        cond.0 < s.frames.last().regs.len(),
    ensures
        ({
            let (s1, st) = term_step(s, s.frames.last(), Terminator::BranchIf { cond, th, el });
            &&& st == Step::Running
            &&& s1.frames.len() == s.frames.len()
            &&& s1.frames.last().ip == 0
            &&& s1.frames.last().regs == s.frames.last().regs
            &&& (s1.frames.last().block == th.0) <== (s.frames.last().regs[cond.0 as int] == Value::True)
            &&& (s1.frames.last().block == el.0) <== (s.frames.last().regs[cond.0 as int] != Value::True)
        }),
        ({
            let (s1, st) = term_step(s, s.frames.last(), Terminator::Jump(b));
            &&& st == Step::Running
            &&& s1.frames.last().block == b.0 && s1.frames.last().ip == 0
            &&& s1.frames.last().regs == s.frames.last().regs
        }),
{
}

/// Returning hands the returned register's value back: from the outermost
/// call the run finishes with it; from an inner call it is written into
/// the caller's result register, the callee's frame is dropped and the
/// stack pointer goes back to the callee's base.
pub proof fn lemma_return_law(s: VmState, r: Reg)
    requires
        s.frames.len() > 0,
        r.0 < s.frames.last().regs.len(),
    ensures
        ({
            let f = s.frames.last();
            let (s1, st) = term_step(s, f, Terminator::Return(r));
            &&& s.frames.len() == 1 ==> st == Step::Finished(f.regs[r.0 as int]) && s1.frames.len() == 0
            &&& s.frames.len() > 1 && f.ret.0 < s.frames[s.frames.len() - 2].regs.len() ==> {
                &&& st == Step::Running
                &&& s1.frames.len() == s.frames.len() - 1
                &&& s1.frames.last().regs[f.ret.0 as int] == f.regs[r.0 as int]
                &&& s1.stack_ptr == f.bp
                &&& s1.stack == s.stack
            }
        }),
{
}

/// One step of the terminator `t` of the innermost frame `f` of `s`.
pub open spec fn term_step(s: VmState, f: FrameV, t: Terminator) -> (VmState, Step) {
    let n = f.regs.len();
    match t {
        Terminator::Return(r) => if r.0 >= n {
            trap(s, Trap::BadRegister)
        } else {
            let v = f.regs[r.0 as int];
            let rest = s.frames.drop_last();
            if rest.len() == 0 {
                (VmState { frames: rest, stack_ptr: f.bp, ..s }, Step::Finished(v))
            } else {
                let caller = rest.last();
                if f.ret.0 >= caller.regs.len() {
                    trap(s, Trap::BadRegister)
                } else {
                    running(
                        VmState {
                            frames: rest.update(rest.len() - 1, set_reg(caller, f.ret, v)),
                            stack_ptr: f.bp,
                            ..s
                        },
                    )
                }
            }
        },
        Terminator::Jump(b) => running(with_top(s, FrameV { block: b.0, ip: 0, ..f })),
        Terminator::BranchIf { cond, th, el } => if cond.0 >= n {
            trap(s, Trap::BadRegister)
        } else {
            let b = if f.regs[cond.0 as int] == Value::True {
                th
            } else {
                el
            };
            running(with_top(s, FrameV { block: b.0, ip: 0, ..f }))
        },
    }
}

/// One step of the machine running the functions `funcs` from state `s`,
/// which has at least one active call.
pub open spec fn step_spec(funcs: Seq<(String, Func)>, s: VmState) -> (VmState, Step) {
    let f = s.frames.last();
    let func = funcs[f.func as int].1;
    if f.block >= func.blocks@.len() {
        trap(s, Trap::BadBlock)
    } else {
        let block = func.blocks@[f.block as int];
        if f.ip < block.instrs@.len() {
            inst_step(funcs, s, f, block.instrs@[f.ip as int])
        } else {
            term_step(s, f, block.terminator)
        }
    }
}

// ---------------------------------------------------------------------------
// Execution

/// The state made of these parts.
pub open spec fn state_of(stack: Seq<Value>, stack_ptr: usize, frames: Seq<Frame>, output: Seq<usize>) -> VmState {
    VmState { stack, stack_ptr, frames: frames.map_values(|f: Frame| f@), output }
}

impl VM {
    /// Every active call belongs to a function of the program, and the
    /// program's names are distinct.
    pub open spec fn wf(&self) -> bool {
        &&& names_distinct(self.funcs@)
        &&& frames_ok(self.funcs@, self.frames@)
    }
}

/// Sets register `r` of the innermost frame to `v` and moves on to its next
/// instruction.
fn set_top_reg(frames: &mut Vec<Frame>, r: usize, v: Value)
    requires
        old(frames).len() > 0,
        r < old(frames)@.last().regs@.len(),
        old(frames)@.last().ip < usize::MAX,
    ensures
        final(frames)@.map_values(|f: Frame| f@) == old(frames)@.map_values(|f: Frame| f@).update(
            old(frames).len() - 1,
            set_reg(old(frames)@.last()@, Reg(r), v),
        ),
        forall|k: int| 0 <= k < final(frames)@.len() ==> (#[trigger] final(frames)@[k]).func == old(frames)@[k].func,
        forall|k: int| 0 <= k < final(frames)@.len() - 1 ==> (#[trigger] final(frames)@[k]) == old(frames)@[k],
        final(frames)@.len() == old(frames)@.len(),
{
    let k = frames.len() - 1;
    frames[k].regs[r] = v;
    frames[k].ip = frames[k].ip + 1;
    assert(final(frames)@.map_values(|f: Frame| f@) =~= old(frames)@.map_values(|f: Frame| f@).update(
        old(frames).len() - 1,
        set_reg(old(frames)@.last()@, Reg(r), v),
    ));
}

/// Moves the innermost frame on to its next instruction.
fn advance_top(frames: &mut Vec<Frame>)
    requires
        old(frames).len() > 0,
        old(frames)@.last().ip < usize::MAX,
    ensures
        final(frames)@.map_values(|f: Frame| f@) == old(frames)@.map_values(|f: Frame| f@).update(
            old(frames).len() - 1,
            FrameV { ip: (old(frames)@.last().ip + 1) as usize, ..old(frames)@.last()@ },
        ),
        forall|k: int| 0 <= k < final(frames)@.len() ==> (#[trigger] final(frames)@[k]).func == old(frames)@[k].func,
        forall|k: int| 0 <= k < final(frames)@.len() - 1 ==> (#[trigger] final(frames)@[k]) == old(frames)@[k],
        final(frames)@.len() == old(frames)@.len(),
{
    let k = frames.len() - 1;
    frames[k].ip = frames[k].ip + 1;
    assert(final(frames)@.map_values(|f: Frame| f@) =~= old(frames)@.map_values(|f: Frame| f@).update(
        old(frames).len() - 1,
        FrameV { ip: (old(frames)@.last().ip + 1) as usize, ..old(frames)@.last()@ },
    ));
}

/// Moves the innermost frame to the start of block `b`.
fn jump_top(frames: &mut Vec<Frame>, b: usize)
    requires
        old(frames).len() > 0,
    ensures
        final(frames)@.map_values(|f: Frame| f@) == old(frames)@.map_values(|f: Frame| f@).update(
            old(frames).len() - 1,
            FrameV { block: b, ip: 0, ..old(frames)@.last()@ },
        ),
        forall|k: int| 0 <= k < final(frames)@.len() ==> (#[trigger] final(frames)@[k]).func == old(frames)@[k].func,
        forall|k: int| 0 <= k < final(frames)@.len() - 1 ==> (#[trigger] final(frames)@[k]) == old(frames)@[k],
        final(frames)@.len() == old(frames)@.len(),
{
    let k = frames.len() - 1;
    frames[k].block = b;
    frames[k].ip = 0;
    assert(final(frames)@.map_values(|f: Frame| f@) =~= old(frames)@.map_values(|f: Frame| f@).update(
        old(frames).len() - 1,
        FrameV { block: b, ip: 0, ..old(frames)@.last()@ },
    ));
}

/// The index of the function named `name`.
pub fn lookup_func(funcs: &Vec<(String, Func)>, name: &String) -> (res: Option<usize>)
    requires
        names_distinct(funcs@),
    ensures
        match res {
            Some(i) => find_func(funcs@, name@) == Some(i as int),
            None => find_func(funcs@, name@) is None,
        },
{
    let mut i: usize = 0;
    while i < funcs.len()
        invariant
            i <= funcs.len(),
            names_distinct(funcs@),
            forall|j: int| 0 <= j < i ==> (#[trigger] funcs@[j]).0@ != name@,
        decreases funcs.len() - i,
    {
        if funcs[i].0 == *name {
            assert(funcs@[i as int].0@ == name@);
            proof {
                let c = choose|j: int| 0 <= j < funcs@.len() && (#[trigger] funcs@[j]).0@ == name@;
                assert(funcs@[c].0@ == name@);
                if c != i {
                    assert(funcs@[c].0@ != funcs@[i as int].0@);
                }
            }
            return Some(i);
        }
        i += 1;
    }
    None
}

/// Whether `name` is the built-in `printnum`.
fn is_printnum(name: &String) -> (b: bool)
    ensures
        b == (name@ == printnum_name()),
{
    let lit = "printnum".to_string();
    proof {
        reveal_strlit("printnum");
        assert("printnum"@ =~= printnum_name());
    }
    *name == lit
}

pub proof fn lemma_slots_total_mono(slots: Seq<StackSlot>, i: int, j: int)
    requires
        0 <= i <= j,
    ensures
        slots_total(slots, i) <= slots_total(slots, j),
    decreases j,
{
    if i < j {
        lemma_slots_total_mono(slots, i, j - 1);
    }
}

#[verifier::loop_isolation(false)]
/// Starts a call of `funcs[fi]` with `args` at stack pointer `sp`: the new
/// frame and the new stack pointer.
fn enter_frame(funcs: &Vec<(String, Func)>, fi: usize, args: Vec<Value>, sp: usize, ret: Reg) -> (res:
    Result<(Frame, usize), Trap>)
    requires
        fi < funcs@.len(),
    ensures
        match (res, enter(funcs@, fi as int, args@, sp, ret)) {
            (Ok((fr, nsp)), Ok((fv, nsp2))) => fr@ == fv && nsp == nsp2,
            (Err(a), Err(b)) => a == b,
            _ => false,
        },
{
    let func = &funcs[fi].1;
    let ghost slots = func.stack_slots@;
    if args.len() > func.register_count {
        return Err(Trap::TooManyArguments);
    }
    let mut regs: Vec<Value> = Vec::new();
    let mut j: usize = 0;
    while j < func.register_count
        invariant
            j <= func.register_count,
            args.len() <= func.register_count,
            regs@.len() == j,
            forall|k: int| 0 <= k < j ==> #[trigger] regs@[k] == (if k < args@.len() { args@[k] } else { Value::Null }),
        decreases func.register_count - j,
    {
        if j < args.len() {
            regs.push(args[j]);
        } else {
            regs.push(Value::Null);
        }
        j += 1;
    }
    let mut offsets: Vec<usize> = Vec::new();
    let mut total: usize = 0;
    let mut i: usize = 0;
    while i < func.stack_slots.len()
        invariant
            i <= slots.len(),
            slots == func.stack_slots@,
            total == slots_total(slots, i as int),
            offsets@.len() == i,
            forall|k: int| 0 <= k < i ==> #[trigger] offsets@[k] == slots_total(slots, k) as usize,
        decreases slots.len() - i,
    {
        offsets.push(total);
        let size = func.stack_slots[i].size;
        if total > usize::MAX - size {
            proof {
                assert(slots_total(slots, i + 1) == slots_total(slots, i as int) + slots[i as int].size);
                lemma_slots_total_mono(slots, i + 1, slots.len() as int);
            }
            return Err(Trap::Overflow);
        }
        total = total + size;
        i += 1;
    }
    if sp > usize::MAX - total {
        return Err(Trap::Overflow);
    }
    let fr = Frame { func: fi, block: 0, ip: 0, regs, bp: sp, slot_offsets: offsets, ret };
    let ghost spec_regs = Seq::new(
        func.register_count as nat,
        |k: int| if k < args@.len() { args@[k] } else { Value::Null },
    );
    let ghost spec_offsets = Seq::new(slots.len(), |k: int| slots_total(slots, k) as usize);
    assert(fr.regs@ =~= spec_regs);
    assert(fr.slot_offsets@ =~= spec_offsets);
    Ok((fr, sp + total))
}

/// `a <= b` in the order of `Value`.
pub fn value_le_exec(a: Value, b: Value) -> (res: bool)
    ensures
        res == value_le(a, b),
{
    let ra: u8 = match a {
        Value::Null => 0,
        Value::True => 1,
        Value::False => 2,
        Value::Int(_) => 3,
        Value::Ptr(_) => 4,
    };
    let rb: u8 = match b {
        Value::Null => 0,
        Value::True => 1,
        Value::False => 2,
        Value::Int(_) => 3,
        Value::Ptr(_) => 4,
    };
    if ra != rb {
        ra < rb
    } else {
        match (a, b) {
            (Value::Int(x), Value::Int(y)) => x <= y,
            (Value::Ptr(x), Value::Ptr(y)) => x <= y,
            _ => true,
        }
    }
}

/// The address of cell `off` of stack slot `ss` of the frame `f`.
fn slot_addr_exec(f: &Frame, ss: ir::StackSlotId, off: usize) -> (res: Result<usize, Trap>)
    ensures
        res == slot_addr(f@, ss, off),
{
    if ss.0 >= f.slot_offsets.len() {
        return Err(Trap::BadSlot);
    }
    let o = f.slot_offsets[ss.0];
    if f.bp > usize::MAX - o {
        return Err(Trap::Overflow);
    }
    let base = f.bp + o;
    if base > usize::MAX - off {
        return Err(Trap::Overflow);
    }
    Ok(base + off)
}

/// The facts about the active calls that every step keeps.
pub open spec fn frames_ok(funcs: Seq<(String, Func)>, frames: Seq<Frame>) -> bool {
    &&& forall|k: int| 0 <= k < frames.len() ==> (#[trigger] frames[k]).func < funcs.len()
    &&& forall|k: int| 0 <= k < frames.len() - 1 ==> (#[trigger] frames[k]).ip < usize::MAX
}

/// Executes the instruction `inst` of the innermost frame.
#[verifier::loop_isolation(false)]
#[verifier::rlimit(60)]
fn exec_instr(
    funcs: &Vec<(String, Func)>,
    inst: &Inst,
    stack: &mut Vec<Value>,
    stack_ptr: &mut usize,
    frames: &mut Vec<Frame>,
    output: &mut Vec<usize>,
) -> (res: Step)
    requires
        old(frames).len() > 0,
        old(frames)@.last().ip < usize::MAX,
        names_distinct(funcs@),
        frames_ok(funcs@, old(frames)@),
    ensures
        (state_of(final(stack)@, *final(stack_ptr), final(frames)@, final(output)@), res) == inst_step(
            funcs@,
            state_of(old(stack)@, *old(stack_ptr), old(frames)@, old(output)@),
            old(frames)@.last()@,
            *inst,
        ),
        frames_ok(funcs@, final(frames)@),
{
    let top = frames.len() - 1;
    let n = frames[top].regs.len();
    let ghost s = state_of(old(stack)@, *old(stack_ptr), old(frames)@, old(output)@);
    let ghost f = old(frames)@.last()@;
    assert(s.frames.last() == f);
    match inst {
        Inst::LoadInt(r, k) => {
            if r.0 < n {
                set_top_reg(frames, r.0, Value::Int(*k));
                Step::Running
            } else {
                Step::Trapped(Trap::BadRegister)
            }
        },
        Inst::LoadBool(r, b) => {
            if r.0 < n {
                let v = if *b { Value::True } else { Value::False };
                set_top_reg(frames, r.0, v);
                Step::Running
            } else {
                Step::Trapped(Trap::BadRegister)
            }
        },
        Inst::Assign(r, a) => {
            if a.0 < n && r.0 < n {
                let v = frames[top].regs[a.0];
                set_top_reg(frames, r.0, v);
                Step::Running
            } else {
                Step::Trapped(Trap::BadRegister)
            }
        },
        Inst::Add(r, a, b) => {
            if a.0 < n && b.0 < n {
                let res: Result<Value, Trap> = match (frames[top].regs[a.0], frames[top].regs[b.0]) {
                    (Value::Int(x), Value::Int(y)) => match x.checked_add(y) {
                        Some(z) => Ok(Value::Int(z)),
                        None => Err(Trap::Overflow),
                    },
                    (Value::Ptr(x), Value::Int(y)) => match x.checked_add(y) {
                        Some(z) => Ok(Value::Ptr(z)),
                        None => Err(Trap::Overflow),
                    },
                    (Value::Int(x), Value::Ptr(y)) => match x.checked_add(y) {
                        Some(z) => Ok(Value::Ptr(z)),
                        None => Err(Trap::Overflow),
                    },
                    _ => Err(Trap::TypeMismatch),
                };
                match res {
                    Ok(v) => {
                        if r.0 < n {
                            set_top_reg(frames, r.0, v);
                            Step::Running
                        } else {
                            Step::Trapped(Trap::BadRegister)
                        }
                    },
                    Err(t) => Step::Trapped(t),
                }
            } else {
                Step::Trapped(Trap::BadRegister)
            }
        },
        Inst::Sub(r, a, b) => {
            if a.0 < n && b.0 < n {
                match (frames[top].regs[a.0], frames[top].regs[b.0]) {
                    (Value::Int(x), Value::Int(y)) => {
                        if x >= y {
                            if r.0 < n {
                                set_top_reg(frames, r.0, Value::Int(x - y));
                                Step::Running
                            } else {
                                Step::Trapped(Trap::BadRegister)
                            }
                        } else {
                            Step::Trapped(Trap::Overflow)
                        }
                    },
                    _ => Step::Trapped(Trap::TypeMismatch),
                }
            } else {
                Step::Trapped(Trap::BadRegister)
            }
        },
        Inst::Mul(r, a, b) => {
            if a.0 < n && b.0 < n {
                match (frames[top].regs[a.0], frames[top].regs[b.0]) {
                    (Value::Int(x), Value::Int(y)) => match x.checked_mul(y) {
                        Some(z) => {
                            if r.0 < n {
                                set_top_reg(frames, r.0, Value::Int(z));
                                Step::Running
                            } else {
                                Step::Trapped(Trap::BadRegister)
                            }
                        },
                        None => Step::Trapped(Trap::Overflow),
                    },
                    _ => Step::Trapped(Trap::TypeMismatch),
                }
            } else {
                Step::Trapped(Trap::BadRegister)
            }
        },
        Inst::AddImm(r, a, k) => {
            if a.0 < n {
                match frames[top].regs[a.0] {
                    Value::Int(m) => match k.checked_add(m) {
                        Some(z) => {
                            if r.0 < n {
                                set_top_reg(frames, r.0, Value::Int(z));
                                Step::Running
                            } else {
                                Step::Trapped(Trap::BadRegister)
                            }
                        },
                        None => Step::Trapped(Trap::Overflow),
                    },
                    Value::Ptr(m) => match k.checked_add(m) {
                        Some(z) => {
                            if r.0 < n {
                                set_top_reg(frames, r.0, Value::Ptr(z));
                                Step::Running
                            } else {
                                Step::Trapped(Trap::BadRegister)
                            }
                        },
                        None => Step::Trapped(Trap::Overflow),
                    },
                    _ => Step::Trapped(Trap::TypeMismatch),
                }
            } else {
                Step::Trapped(Trap::BadRegister)
            }
        },
        Inst::CmpEq(r, a, b) => {
            if a.0 < n && b.0 < n && r.0 < n {
                let eq = frames[top].regs[a.0] == frames[top].regs[b.0];
                let v = if eq { Value::True } else { Value::False };
                set_top_reg(frames, r.0, v);
                Step::Running
            } else {
                Step::Trapped(Trap::BadRegister)
            }
        },
        Inst::CmpLe(r, a, b) => {
            if a.0 < n && b.0 < n && r.0 < n {
                let le = value_le_exec(frames[top].regs[a.0], frames[top].regs[b.0]);
                let v = if le { Value::True } else { Value::False };
                set_top_reg(frames, r.0, v);
                Step::Running
            } else {
                Step::Trapped(Trap::BadRegister)
            }
        },
        Inst::StackAddr(r, ss, off) => match slot_addr_exec(&frames[top], *ss, *off) {
            Ok(addr) => {
                if r.0 < n {
                    set_top_reg(frames, r.0, Value::Ptr(addr));
                    Step::Running
                } else {
                    Step::Trapped(Trap::BadRegister)
                }
            },
            Err(t) => Step::Trapped(t),
        },
        Inst::StackLoad(r, ss, off) => match slot_addr_exec(&frames[top], *ss, *off) {
            Ok(addr) => {
                if addr >= stack.len() {
                    Step::Trapped(Trap::OutOfBounds)
                } else if r.0 < n {
                    let v = stack[addr];
                    set_top_reg(frames, r.0, v);
                    Step::Running
                } else {
                    Step::Trapped(Trap::BadRegister)
                }
            },
            Err(t) => Step::Trapped(t),
        },
        Inst::StackStore(ss, off, r) => match slot_addr_exec(&frames[top], *ss, *off) {
            Ok(addr) => {
                if r.0 >= n {
                    Step::Trapped(Trap::BadRegister)
                } else if addr >= stack.len() {
                    Step::Trapped(Trap::OutOfBounds)
                } else {
                    let v = frames[top].regs[r.0];
                    stack.set(addr, v);
                    advance_top(frames);
                    Step::Running
                }
            },
            Err(t) => Step::Trapped(t),
        },
        Inst::Load(r, p, off) => {
            if p.0 < n {
                match frames[top].regs[p.0] {
                    Value::Ptr(addr) => {
                        if addr > usize::MAX - *off {
                            Step::Trapped(Trap::Overflow)
                        } else if addr + *off >= stack.len() {
                            Step::Trapped(Trap::OutOfBounds)
                        } else if r.0 < n {
                            let v = stack[addr + *off];
                            set_top_reg(frames, r.0, v);
                            Step::Running
                        } else {
                            Step::Trapped(Trap::BadRegister)
                        }
                    },
                    _ => Step::Trapped(Trap::TypeMismatch),
                }
            } else {
                Step::Trapped(Trap::BadRegister)
            }
        },
        Inst::Store(p, off, v) => {
            if p.0 < n {
                match frames[top].regs[p.0] {
                    Value::Ptr(addr) => {
                        if addr > usize::MAX - *off {
                            Step::Trapped(Trap::Overflow)
                        } else if v.0 >= n {
                            Step::Trapped(Trap::BadRegister)
                        } else if addr + *off >= stack.len() {
                            Step::Trapped(Trap::OutOfBounds)
                        } else {
                            let val = frames[top].regs[v.0];
                            stack.set(addr + *off, val);
                            advance_top(frames);
                            Step::Running
                        }
                    },
                    _ => Step::Trapped(Trap::TypeMismatch),
                }
            } else {
                Step::Trapped(Trap::BadRegister)
            }
        },
        Inst::MemCopy { src, dst, len } => {
            if src.0 < n && dst.0 < n {
                match (frames[top].regs[src.0], frames[top].regs[dst.0]) {
                    (Value::Ptr(a), Value::Ptr(b)) => {
                        if *len == 0 {
                            advance_top(frames);
                            Step::Running
                        } else if a > stack.len() || *len > stack.len() - a || b > stack.len() || *len > stack.len() - b {
                            Step::Trapped(Trap::OutOfBounds)
                        } else {
                            let mut i: usize = 0;
                            while i < *len
                                invariant
                                    i <= *len,
                                    a + *len <= stack@.len(),
                                    b + *len <= stack@.len(),
                                    stack@ == mem_copy(old(stack)@, a as int, b as int, i as nat),
                                decreases *len - i,
                            {
                                let v = stack[a + i];
                                stack.set(b + i, v);
                                i += 1;
                            }
                            advance_top(frames);
                            Step::Running
                        }
                    },
                    _ => Step::Trapped(Trap::TypeMismatch),
                }
            } else {
                Step::Trapped(Trap::BadRegister)
            }
        },
        Inst::FnCall(r, name, args) => {
            let mut vals: Vec<Value> = Vec::new();
            let mut i: usize = 0;
            while i < args.len()
                invariant
                    i <= args@.len(),
                    vals@.len() == i,
                    forall|j: int| 0 <= j < i ==> (#[trigger] args@[j]).0 < n,
                    forall|j: int| 0 <= j < i ==> #[trigger] vals@[j] == f.regs[args@[j].0 as int],
                decreases args.len() - i,
            {
                if args[i].0 >= n {
                    return Step::Trapped(Trap::BadRegister);
                }
                vals.push(frames[top].regs[args[i].0]);
                i += 1;
            }
            let ghost spec_vals = Seq::new(args@.len(), |j: int| f.regs[args@[j].0 as int]);
            assert(vals@ =~= spec_vals);
            if is_printnum(name) {
                if vals.len() == 0 {
                    return Step::Trapped(Trap::MissingArgument);
                }
                match vals[vals.len() - 1] {
                    Value::Int(k) => {
                        output.push(k);
                        if r.0 < n {
                            set_top_reg(frames, r.0, Value::Null);
                            Step::Running
                        } else {
                            Step::Trapped(Trap::BadRegister)
                        }
                    },
                    _ => Step::Trapped(Trap::TypeMismatch),
                }
            } else {
                match lookup_func(funcs, name) {
                    None => Step::Trapped(Trap::UnknownFunction),
                    Some(fi) => match enter_frame(funcs, fi, vals, *stack_ptr, *r) {
                        Ok((callee, sp)) => {
                            frames.push(callee);
                            *stack_ptr = sp;
                            assert(final(frames)@.map_values(|fr: Frame| fr@) =~= old(frames)@.map_values(|fr: Frame| fr@).push(callee@));
                            Step::Running
                        },
                        Err(t) => Step::Trapped(t),
                    },
                }
            }
        },
    }
}

/// Executes the terminator `t` of the innermost frame.
fn exec_term(
    t: Terminator,
    stack_ptr: &mut usize,
    frames: &mut Vec<Frame>,
    Ghost(stack): Ghost<Seq<Value>>,
    Ghost(output): Ghost<Seq<usize>>,
) -> (res: Step)
    requires
        old(frames).len() > 0,
        forall|k: int| 0 <= k < old(frames)@.len() - 1 ==> (#[trigger] old(frames)@[k]).ip < usize::MAX,
    ensures
        ({
            let (s2, st) = term_step(
                VmState { stack, stack_ptr: *old(stack_ptr), frames: old(frames)@.map_values(|f: Frame| f@), output },
                old(frames)@.last()@,
                t,
            );
            &&& res == st
            &&& s2 == state_of(stack, *final(stack_ptr), final(frames)@, output)
        }),
        final(frames)@.len() <= old(frames)@.len(),
        forall|k: int| 0 <= k < final(frames)@.len() ==> (#[trigger] final(frames)@[k]).func == old(frames)@[k].func,
        forall|k: int| 0 <= k < final(frames)@.len() - 1 ==> (#[trigger] final(frames)@[k]) == old(frames)@[k],
{
    let top = frames.len() - 1;
    let n = frames[top].regs.len();
    match t {
        Terminator::Return(r) => {
            if r.0 >= n {
                return Step::Trapped(Trap::BadRegister);
            }
            let v = frames[top].regs[r.0];
            if top == 0 {
                let fr = frames.pop().unwrap();
                *stack_ptr = fr.bp;
                assert(final(frames)@.map_values(|f: Frame| f@) =~= old(frames)@.map_values(|f: Frame| f@).drop_last());
                Step::Finished(v)
            } else {
                let ret = frames[top].ret;
                if ret.0 >= frames[top - 1].regs.len() {
                    return Step::Trapped(Trap::BadRegister);
                }
                let fr = frames.pop().unwrap();
                *stack_ptr = fr.bp;
                assert(frames@.map_values(|f: Frame| f@) =~= old(frames)@.map_values(|f: Frame| f@).drop_last());
                assert(frames@.last() == old(frames)@[top - 1]);
                set_top_reg(frames, ret.0, v);
                Step::Running
            }
        },
        Terminator::Jump(b) => {
            jump_top(frames, b.0);
            Step::Running
        },
        Terminator::BranchIf { cond, th, el } => {
            if cond.0 >= n {
                return Step::Trapped(Trap::BadRegister);
            }
            let b = if frames[top].regs[cond.0] == Value::True { th } else { el };
            jump_top(frames, b.0);
            Step::Running
        },
    }
}

/// The outcome of running the machine for a bounded number of steps.
#[derive(Debug, Clone, Copy, PartialEq, Eq, Structural)]
pub enum RunResult {
    /// The outermost call returned this value.
    Finished(Value),
    /// The machine stopped on an instruction it cannot execute.
    Trapped(Trap),
    /// The steps allowed ran out before the outermost call returned.
    OutOfFuel,
}

/// Runs the machine for at most `fuel` steps from `s`.
pub open spec fn run_spec(funcs: Seq<(String, Func)>, s: VmState, fuel: nat) -> (VmState, RunResult)
    decreases fuel,
{
    if fuel == 0 || s.frames.len() == 0 {
        (s, RunResult::OutOfFuel)
    } else {
        let (s2, st) = step_spec(funcs, s);
        match st {
            Step::Running => run_spec(funcs, s2, (fuel - 1) as nat),
            Step::Finished(v) => (s2, RunResult::Finished(v)),
            Step::Trapped(t) => (s2, RunResult::Trapped(t)),
        }
    }
}

/// A call of the function `name` with `args`, run for at most `fuel` steps
/// from a machine with no active call.
pub open spec fn call_spec(funcs: Seq<(String, Func)>, s: VmState, name: Seq<char>, args: Seq<Value>, fuel: nat) -> (VmState, RunResult) {
    if name == printnum_name() {
        if args.len() == 0 {
            (s, RunResult::Trapped(Trap::MissingArgument))
        } else {
            match args.last() {
                Value::Int(k) => (VmState { output: s.output.push(k), ..s }, RunResult::Finished(Value::Null)),
                _ => (s, RunResult::Trapped(Trap::TypeMismatch)),
            }
        }
    } else {
        match find_func(funcs, name) {
            None => (s, RunResult::Trapped(Trap::UnknownFunction)),
            Some(fi) => match enter(funcs, fi, args, s.stack_ptr, Reg(0)) {
                Ok((fr, sp)) => run_spec(funcs, VmState { frames: seq![fr], stack_ptr: sp, ..s }, fuel),
                Err(t) => (s, RunResult::Trapped(t)),
            },
        }
    }
}

/// The machine that `run` starts: an empty stack memory and no active call.
pub open spec fn initial_state() -> VmState {
    VmState { stack: Seq::new(STACK_SIZE as nat, |i: int| Value::Null), stack_ptr: 0, frames: Seq::empty(), output: Seq::empty() }
}

impl VM {
    /// A machine for the program, with an empty stack and no active call.
    pub fn new(prog: Prog) -> (vm: VM)
        requires
            names_distinct(prog.funcs@),
        ensures
            vm.funcs == prog.funcs,
            vm@ == initial_state(),
            vm.wf(),
    {
        let mut stack: Vec<Value> = Vec::new();
        let mut i: usize = 0;
        while i < STACK_SIZE
            invariant
                i <= STACK_SIZE,
                stack@ == Seq::new(i as nat, |j: int| Value::Null),
            decreases STACK_SIZE - i,
        {
            stack.push(Value::Null);
            i += 1;
            assert(stack@ =~= Seq::new(i as nat, |j: int| Value::Null));
        }
        let vm = VM { funcs: prog.funcs, stack, stack_ptr: 0, frames: Vec::new(), output: Vec::new() };
        assert(vm@.frames =~= Seq::<FrameV>::empty());
        vm
    }

    /// Whether a call is active, that is, whether `step` can be called.
    pub fn is_running(&self) -> (b: bool)
        ensures
            b == (self.frames@.len() > 0),
    {
        self.frames.len() > 0
    }

    /// Executes one instruction or terminator of the innermost call.
    pub fn step(&mut self) -> (res: Step)
        requires
            old(self).wf(),
            old(self).frames@.len() > 0,
        ensures
            (final(self)@, res) == step_spec(old(self).funcs@, old(self)@),
            final(self).funcs == old(self).funcs,
            final(self).wf(),
    {
        let top = self.frames.len() - 1;
        let fi = self.frames[top].func;
        let b = self.frames[top].block;
        let ip = self.frames[top].ip;
        assert(self@.frames.last() == self.frames@.last()@);
        if b >= self.funcs[fi].1.blocks.len() {
            return Step::Trapped(Trap::BadBlock);
        }
        if ip < self.funcs[fi].1.blocks[b].instrs.len() {
            exec_instr(
                &self.funcs,
                &self.funcs[fi].1.blocks[b].instrs[ip],
                &mut self.stack,
                &mut self.stack_ptr,
                &mut self.frames,
                &mut self.output,
            )
        } else {
            let t = self.funcs[fi].1.blocks[b].terminator;
            let ghost st = self.stack@;
            let ghost out = self.output@;
            let res = exec_term(t, &mut self.stack_ptr, &mut self.frames, Ghost(st), Ghost(out));
            res
        }
    }

    /// Runs the active call for at most `fuel` steps.
    pub fn run_for(&mut self, fuel: u64) -> (res: RunResult)
        requires
            old(self).wf(),
        ensures
            (final(self)@, res) == run_spec(old(self).funcs@, old(self)@, fuel as nat),
            final(self).funcs == old(self).funcs,
            final(self).wf(),
    {
        let mut left = fuel;
        while left > 0
            invariant
                self.wf(),
                self.funcs == old(self).funcs,
                run_spec(self.funcs@, self@, left as nat) == run_spec(old(self).funcs@, old(self)@, fuel as nat),
            decreases left,
        {
            if self.frames.len() == 0 {
                return RunResult::OutOfFuel;
            }
            match self.step() {
                Step::Running => {},
                Step::Finished(v) => return RunResult::Finished(v),
                Step::Trapped(t) => return RunResult::Trapped(t),
            }
            left = left - 1;
        }
        RunResult::OutOfFuel
    }

    /// Calls the function `funcs[fi]` with `args` and runs it for at most
    /// `fuel` steps.
    pub fn call_func(&mut self, fi: usize, args: Vec<Value>, fuel: u64) -> (res: RunResult)
        requires
            old(self).wf(),
            old(self).frames@.len() == 0,
            fi < old(self).funcs@.len(),
        ensures
            (final(self)@, res) == (match enter(old(self).funcs@, fi as int, args@, old(self).stack_ptr, Reg(0)) {
                Ok((fr, sp)) => run_spec(old(self).funcs@, VmState { frames: seq![fr], stack_ptr: sp, ..old(self)@ }, fuel as nat),
                Err(t) => (old(self)@, RunResult::Trapped(t)),
            }),
            final(self).funcs == old(self).funcs,
            final(self).wf(),
    {
        match enter_frame(&self.funcs, fi, args, self.stack_ptr, Reg(0)) {
            Ok((fr, sp)) => {
                self.frames.push(fr);
                self.stack_ptr = sp;
                assert(self@.frames =~= seq![fr@]);
                self.run_for(fuel)
            },
            Err(t) => RunResult::Trapped(t),
        }
    }

    /// Calls the function named `name` with `args` (or the built-in
    /// `printnum`) and runs it for at most `fuel` steps.
    pub fn call_func_name(&mut self, name: &String, args: Vec<Value>, fuel: u64) -> (res: RunResult)
        requires
            old(self).wf(),
            old(self).frames@.len() == 0,
            name@ == printnum_name() ==> args@.len() > 0 && args@.last() is Int,
            name@ != printnum_name() ==> find_func(old(self).funcs@, name@) is Some,
        ensures
            (final(self)@, res) == call_spec(old(self).funcs@, old(self)@, name@, args@, fuel as nat),
            final(self).funcs == old(self).funcs,
            final(self).wf(),
            res is Finished ==> final(self)@.stack_ptr == old(self)@.stack_ptr,
    {
        proof {
            lemma_call_restores_stack(self.funcs@, self@, name@, args@, fuel as nat);
        }
        if is_printnum(name) {
            if args.len() == 0 {
                return RunResult::Trapped(Trap::MissingArgument);
            }
            match args[args.len() - 1] {
                Value::Int(k) => {
                    self.output.push(k);
                    RunResult::Finished(Value::Null)
                },
                _ => RunResult::Trapped(Trap::TypeMismatch),
            }
        } else {
            match lookup_func(&self.funcs, name) {
                None => RunResult::Trapped(Trap::UnknownFunction),
                Some(fi) => self.call_func(fi, args, fuel),
            }
        }
    }
}

/// Runs the program's `main` for at most `fuel` steps; returns the outcome
/// and the numbers printed.
pub fn run(prog: Prog, fuel: u64) -> (res: (RunResult, Vec<usize>))
    requires
        names_distinct(prog.funcs@),
        find_func(prog.funcs@, "main"@) is Some,
    ensures
        ({
            let (s, r) = call_spec(prog.funcs@, initial_state(), "main"@, Seq::empty(), fuel as nat);
            res.0 == r && res.1@ == s.output
        }),
        prog_closed(prog.funcs@) ==> !(res.0 matches RunResult::Trapped(t) && bad_access(t)),
{
    proof {
        assert(prog.funcs@.len() == prog.funcs.len());
        if prog_closed(prog.funcs@) {
            lemma_call_closed(prog.funcs@, initial_state(), "main"@, Seq::empty(), fuel as nat);
        }
    }
    proof {
        reveal_strlit("main");
        assert("main"@ != printnum_name());
    }
    let mut vm = VM::new(prog);
    let name = "main".to_string();
    assert(vm@.frames.len() == vm.frames@.len());
    let r = vm.call_func_name(&name, Vec::new(), fuel);
    (r, vm.output)
}

// ---------------------------------------------------------------------------
// Closed programs

/// Every function of the program only mentions its own registers, blocks
/// and stack slots.
pub open spec fn prog_closed(funcs: Seq<(String, Func)>) -> bool {
    forall|k: int| 0 <= k < funcs.len() ==> (#[trigger] funcs[k]).1.valid()
}

/// The call `f` is at a position of its function, with one register per
/// register of the function and one offset per stack slot.
pub open spec fn frame_closed(funcs: Seq<(String, Func)>, f: FrameV) -> bool {
    &&& f.func < funcs.len()
    &&& f.regs.len() == funcs[f.func as int].1.register_count
    &&& f.block < funcs[f.func as int].1.blocks@.len()
    &&& f.ip <= funcs[f.func as int].1.blocks@[f.block as int].instrs@.len()
    &&& f.slot_offsets.len() == funcs[f.func as int].1.stack_slots@.len()
}

/// Every active call is closed; every caller waits on an instruction (its
/// call) and receives the result in one of its registers.
pub open spec fn state_closed(funcs: Seq<(String, Func)>, s: VmState) -> bool {
    &&& forall|k: int| 0 <= k < s.frames.len() ==> frame_closed(funcs, #[trigger] s.frames[k])
    &&& forall|k: int| 0 <= k < s.frames.len() - 1 ==> (#[trigger] s.frames[k]).ip
        < funcs[s.frames[k].func as int].1.blocks@[s.frames[k].block as int].instrs@.len()
    &&& forall|k: int| 0 < k < s.frames.len() ==> (#[trigger] s.frames[k]).ret.0 < s.frames[k - 1].regs.len()
}

/// A trap that only a program that refers to a missing register, block or
/// stack slot can meet.
pub open spec fn bad_access(t: Trap) -> bool {
    t == Trap::BadRegister || t == Trap::BadBlock || t == Trap::BadSlot
}

/// A call of a function of a closed program starts a closed call.
pub proof fn lemma_enter_closed(funcs: Seq<(String, Func)>, fi: int, args: Seq<Value>, sp: usize, ret: Reg)
    requires
        prog_closed(funcs),
        0 <= fi < funcs.len(),
        funcs.len() <= usize::MAX,
    ensures
        enter(funcs, fi, args, sp, ret) matches Ok((fr, _)) ==> frame_closed(funcs, fr) && fr.ret == ret && fr.func == fi,
{
    assert(funcs[fi].1.valid());
}

/// Frames below the top are untouched by a step that only changes the top.
proof fn lemma_with_top_closed(funcs: Seq<(String, Func)>, s: VmState, f2: FrameV)
    requires
        state_closed(funcs, s),
        s.frames.len() > 0,
        frame_closed(funcs, f2),
        f2.regs.len() == s.frames.last().regs.len(),
        f2.ret == s.frames.last().ret,
    ensures
        state_closed(funcs, with_top(s, f2)),
{
    let s2 = with_top(s, f2);
    assert forall|k: int| 0 <= k < s2.frames.len() implies frame_closed(funcs, #[trigger] s2.frames[k]) by {
        if k < s.frames.len() - 1 {
            assert(s2.frames[k] == s.frames[k]);
        }
    }
    assert forall|k: int| 0 <= k < s2.frames.len() - 1 implies (#[trigger] s2.frames[k]).ip
        < funcs[s2.frames[k].func as int].1.blocks@[s2.frames[k].block as int].instrs@.len() by {
        assert(s2.frames[k] == s.frames[k]);
    }
    assert forall|k: int| 0 < k < s2.frames.len() implies (#[trigger] s2.frames[k]).ret.0 < s2.frames[k - 1].regs.len() by {
        assert(s.frames[k].ret.0 < s.frames[k - 1].regs.len());
    }
}

/// An instruction of a closed program, executed from a closed state, never
/// meets a missing register or stack slot, and keeps the state closed.
#[verifier::rlimit(100)]
#[verifier::spinoff_prover]
proof fn lemma_inst_closed(funcs: Seq<(String, Func)>, s: VmState)
    requires
        prog_closed(funcs),
        funcs.len() <= usize::MAX,
        state_closed(funcs, s),
        s.frames.len() > 0,
        s.frames.last().ip < funcs[s.frames.last().func as int].1.blocks@[s.frames.last().block as int].instrs@.len(),
    ensures
        ({
            let f = s.frames.last();
            let inst = funcs[f.func as int].1.blocks@[f.block as int].instrs@[f.ip as int];
            let (s2, st) = inst_step(funcs, s, f, inst);
            &&& !(st matches Step::Trapped(t) && bad_access(t))
            &&& st is Running ==> state_closed(funcs, s2)
        }),
{
    let f = s.frames.last();
    assert(frame_closed(funcs, s.frames[s.frames.len() - 1]));
    let func = funcs[f.func as int].1;
    assert(func.valid());
    let inst = func.blocks@[f.block as int].instrs@[f.ip as int];
    let n = func.register_count as nat;
    assert(inst_ok(inst, n, func.stack_slots@.len()));
    let g = FrameV { ip: (f.ip + 1) as usize, ..f };
    assert(frame_closed(funcs, g));
    match inst {
        Inst::FnCall(r, name, args) => {
            let (s2, st) = inst_step(funcs, s, f, inst);
            if st is Running {
                if name@ == printnum_name() {
                    lemma_with_top_closed(funcs, VmState { output: s2.output, ..s }, set_reg(f, r, Value::Null));
                } else {
                    let fi = find_func(funcs, name@)->0;
                    let vals = Seq::new(args@.len(), |i: int| f.regs[args@[i].0 as int]);
                    lemma_enter_closed(funcs, fi, vals, s.stack_ptr, r);
                    assert forall|k: int| 0 <= k < s2.frames.len() implies frame_closed(funcs, #[trigger] s2.frames[k]) by {
                        if k < s.frames.len() {
                            assert(s2.frames[k] == s.frames[k]);
                        }
                    }
                    assert forall|k: int| 0 <= k < s2.frames.len() - 1 implies (#[trigger] s2.frames[k]).ip
                        < funcs[s2.frames[k].func as int].1.blocks@[s2.frames[k].block as int].instrs@.len() by {
                        assert(s2.frames[k] == s.frames[k]);
                    }
                    assert forall|k: int| 0 < k < s2.frames.len() implies (#[trigger] s2.frames[k]).ret.0 < s2.frames[k - 1].regs.len() by {
                        if k < s.frames.len() {
                            assert(s.frames[k].ret.0 < s.frames[k - 1].regs.len());
                        }
                    }
                }
            }
        },
        Inst::StackStore(_, _, _) | Inst::Store(_, _, _) | Inst::MemCopy { .. } => {
            let (s2, st) = inst_step(funcs, s, f, inst);
            if st is Running {
                lemma_with_top_closed(funcs, VmState { stack: s2.stack, ..s }, g);
            }
        },
        _ => {
            let (s2, st) = inst_step(funcs, s, f, inst);
            if st is Running {
                let f2 = s2.frames.last();
                assert(s2 == with_top(s, f2));
                lemma_with_top_closed(funcs, s, f2);
            }
        },
    }
}

/// A step of a closed program from a closed state never meets a missing
/// register, block or stack slot, and keeps the state closed.
#[verifier::rlimit(40)]
#[verifier::spinoff_prover]
pub proof fn lemma_step_closed(funcs: Seq<(String, Func)>, s: VmState)
    requires
        prog_closed(funcs),
        funcs.len() <= usize::MAX,
        state_closed(funcs, s),
        s.frames.len() > 0,
    ensures
        !(step_spec(funcs, s).1 matches Step::Trapped(t) && bad_access(t)),
        step_spec(funcs, s).1 is Running ==> state_closed(funcs, step_spec(funcs, s).0),
{
    let f = s.frames.last();
    assert(frame_closed(funcs, s.frames[s.frames.len() - 1]));
    let func = funcs[f.func as int].1;
    assert(func.valid());
    let block = func.blocks@[f.block as int];
    let n = func.register_count as nat;
    if f.ip < block.instrs@.len() {
        lemma_inst_closed(funcs, s);
    } else {
        assert(term_ok(block.terminator, n, func.blocks@.len()));
        let (s2, st) = step_spec(funcs, s);
        if st is Running {
            match block.terminator {
                Terminator::Return(_) => {
                    assert forall|k: int| 0 <= k < s2.frames.len() implies frame_closed(funcs, #[trigger] s2.frames[k]) by {
                        assert(frame_closed(funcs, s.frames[k]));
                        if k == s2.frames.len() - 1 {
                            assert(s.frames[k].ip < funcs[s.frames[k].func as int].1.blocks@[s.frames[k].block as int].instrs@.len());
                        }
                    }
                    assert forall|k: int| 0 <= k < s2.frames.len() - 1 implies (#[trigger] s2.frames[k]).ip
                        < funcs[s2.frames[k].func as int].1.blocks@[s2.frames[k].block as int].instrs@.len() by {
                        assert(s2.frames[k] == s.frames[k]);
                    }
                    assert forall|k: int| 0 < k < s2.frames.len() implies (#[trigger] s2.frames[k]).ret.0 < s2.frames[k - 1].regs.len() by {
                        assert(s.frames[k].ret.0 < s.frames[k - 1].regs.len());
                    }
                },
                _ => {
                    let f2 = s2.frames.last();
                    assert(s2 == with_top(s, f2));
                    lemma_with_top_closed(funcs, s, f2);
                },
            }
        }
    }
}

/// Running a closed program from a closed state never meets a missing
/// register, block or stack slot.
pub proof fn lemma_run_closed(funcs: Seq<(String, Func)>, s: VmState, fuel: nat)
    requires
        prog_closed(funcs),
        funcs.len() <= usize::MAX,
        state_closed(funcs, s),
    ensures
        !(run_spec(funcs, s, fuel).1 matches RunResult::Trapped(t) && bad_access(t)),
    decreases fuel,
{
    if fuel > 0 && s.frames.len() > 0 {
        lemma_step_closed(funcs, s);
        let (s2, st) = step_spec(funcs, s);
        if st is Running {
            lemma_run_closed(funcs, s2, (fuel - 1) as nat);
        }
    }
}

/// A call into a program all of whose functions are closed (as the
/// lowering emits them) never meets a missing register, block or stack
/// slot, however long it runs.
pub proof fn lemma_call_closed(funcs: Seq<(String, Func)>, s: VmState, name: Seq<char>, args: Seq<Value>, fuel: nat)
    requires
        prog_closed(funcs),
        funcs.len() <= usize::MAX,
        s.frames.len() == 0,
    ensures
        !(call_spec(funcs, s, name, args, fuel).1 matches RunResult::Trapped(t) && bad_access(t)),
{
    if name != printnum_name() {
        if let Some(fi) = find_func(funcs, name) {
            lemma_enter_closed(funcs, fi, args, s.stack_ptr, Reg(0));
            if let Ok((fr, sp)) = enter(funcs, fi, args, s.stack_ptr, Reg(0)) {
                let s1 = VmState { frames: seq![fr], stack_ptr: sp, ..s };
                assert(frame_closed(funcs, s1.frames[0]));
                lemma_run_closed(funcs, s1, fuel);
            }
        }
    }
}

// ---------------------------------------------------------------------------
// The stack pointer across a call

/// One step keeps where the slots of the outermost active call start, and
/// when it finishes that call it puts the stack pointer back there.
#[verifier::rlimit(100)]
pub proof fn lemma_step_base(funcs: Seq<(String, Func)>, s: VmState)
    requires
        s.frames.len() > 0,
    ensures
        step_spec(funcs, s).1 is Running ==> step_spec(funcs, s).0.frames.len() > 0
            && step_spec(funcs, s).0.frames[0].bp == s.frames[0].bp,
        step_spec(funcs, s).1 is Finished ==> step_spec(funcs, s).0.stack_ptr == s.frames[0].bp,
{
    let f = s.frames.last();
    let func = funcs[f.func as int].1;
    if f.block < func.blocks@.len() {
        let block = func.blocks@[f.block as int];
        if f.ip < block.instrs@.len() {
            let (s2, st) = inst_step(funcs, s, f, block.instrs@[f.ip as int]);
            assert(st is Running ==> s2.frames.len() > 0 && s2.frames[0].bp == s.frames[0].bp);
            assert(!(st is Finished));
        }
    }
}

/// A run that finishes the outermost active call leaves the stack pointer
/// where that call's slots start.
pub proof fn lemma_run_base(funcs: Seq<(String, Func)>, s: VmState, fuel: nat)
    requires
        s.frames.len() > 0,
    ensures
        run_spec(funcs, s, fuel).1 is Finished ==> run_spec(funcs, s, fuel).0.stack_ptr == s.frames[0].bp,
    decreases fuel,
{
    if fuel > 0 {
        lemma_step_base(funcs, s);
        let (s2, st) = step_spec(funcs, s);
        if st is Running {
            lemma_run_base(funcs, s2, (fuel - 1) as nat);
        }
    }
}

/// A call that finishes leaves the stack pointer where it was before the
/// call.
pub proof fn lemma_call_restores_stack(funcs: Seq<(String, Func)>, s: VmState, name: Seq<char>, args: Seq<Value>, fuel: nat)
    requires
        s.frames.len() == 0,
    ensures
        call_spec(funcs, s, name, args, fuel).1 is Finished ==> call_spec(funcs, s, name, args, fuel).0.stack_ptr == s.stack_ptr,
{
    if name != printnum_name() {
        if let Some(fi) = find_func(funcs, name) {
            if let Ok((fr, sp)) = enter(funcs, fi, args, s.stack_ptr, Reg(0)) {
                lemma_run_base(funcs, VmState { frames: seq![fr], stack_ptr: sp, ..s }, fuel);
            }
        }
    }
}

} // verus!
