//! The textual form of the register IR, as listings show it.

use crate::bytecode::ir::{Block, Func, Inst, Prog, Reg, Terminator};
use crate::diagnostic::{bool_text, decimal, push_bool, push_decimal, push_str};
use vstd::prelude::*;

verus! {

/// `r` followed by the register's number.
pub open spec fn reg_text(r: Reg) -> Seq<char> {
    "r"@ + decimal(r.0 as nat)
}

/// The registers `rs`, separated by commas.
pub open spec fn regs_text(rs: Seq<Reg>) -> Seq<char>
    decreases rs.len(),
{
    if rs.len() == 0 {
        Seq::empty()
    } else if rs.len() == 1 {
        reg_text(rs[0])
    } else {
        regs_text(rs.drop_last()) + ", "@ + reg_text(rs.last())
    }
}

/// The listing of one instruction.
pub open spec fn inst_text(i: Inst) -> Seq<char> {
    match i {
        Inst::LoadInt(d, v) => reg_text(d) + " = int "@ + decimal(v as nat),
        Inst::LoadBool(d, v) => reg_text(d) + " = bool "@ + bool_text(v),
        Inst::Assign(d, s) => reg_text(d) + " = mov "@ + reg_text(s),
        Inst::Add(d, l, r) => reg_text(d) + " = add "@ + reg_text(l) + ", "@ + reg_text(r),
        Inst::Sub(d, l, r) => reg_text(d) + " = sub "@ + reg_text(l) + ", "@ + reg_text(r),
        Inst::Mul(d, l, r) => reg_text(d) + " = mul "@ + reg_text(l) + ", "@ + reg_text(r),
        Inst::AddImm(d, l, imm) => reg_text(d) + " = add_imm "@ + reg_text(l) + ", "@ + decimal(imm as nat),
        Inst::CmpEq(d, l, r) => reg_text(d) + " = eq "@ + reg_text(l) + ", "@ + reg_text(r),
        Inst::CmpLe(d, l, r) => reg_text(d) + " = le "@ + reg_text(l) + ", "@ + reg_text(r),
        Inst::FnCall(d, name, args) => reg_text(d) + " = call "@ + name@ + "("@ + regs_text(args@) + ")"@,
        Inst::StackAddr(d, ss, off) => reg_text(d) + " = &s"@ + decimal(ss.0 as nat) + " + "@ + decimal(off as nat),
        Inst::StackLoad(d, ss, off) => reg_text(d) + " = [s"@ + decimal(ss.0 as nat) + " + "@ + decimal(off as nat) + "]"@,
        Inst::StackStore(ss, off, s) => "[s"@ + decimal(ss.0 as nat) + " + "@ + decimal(off as nat) + "] = "@ + reg_text(s),
        Inst::Load(d, p, off) => reg_text(d) + " = [r"@ + decimal(p.0 as nat) + " + "@ + decimal(off as nat) + "]"@,
        Inst::Store(p, off, s) => "[r"@ + decimal(p.0 as nat) + " + "@ + decimal(off as nat) + "] = "@ + reg_text(s),
        Inst::MemCopy { src, dst, len } => "memcpy dst="@ + reg_text(dst) + ", src="@ + reg_text(src) + ", len="@
            + decimal(len as nat),
    }
}

/// The listing of one terminator.
pub open spec fn term_text(t: Terminator) -> Seq<char> {
    match t {
        Terminator::Return(r) => "ret "@ + reg_text(r),
        Terminator::Jump(b) => "jmp b"@ + decimal(b.0 as nat),
        Terminator::BranchIf { cond, th, el } => "br "@ + reg_text(cond) + " b"@ + decimal(th.0 as nat) + " b"@
            + decimal(el.0 as nat),
    }
}

/// The instructions `is`, one per indented line.
pub open spec fn instrs_text(is: Seq<Inst>) -> Seq<char>
    decreases is.len(),
{
    if is.len() == 0 {
        Seq::empty()
    } else {
        instrs_text(is.drop_last()) + "    "@ + inst_text(is.last()) + "\n"@
    }
}

/// The listing of block number `id`.
pub open spec fn block_text(id: nat, b: Block) -> Seq<char> {
    "  block "@ + decimal(id) + ":\n"@ + instrs_text(b.instrs@) + "    "@ + term_text(b.terminator) + "\n"@
}

/// The blocks `bs`, numbered from 0.
pub open spec fn blocks_text(bs: Seq<Block>) -> Seq<char>
    decreases bs.len(),
{
    if bs.len() == 0 {
        Seq::empty()
    } else {
        blocks_text(bs.drop_last()) + block_text((bs.len() - 1) as nat, bs.last())
    }
}

/// The listing of the function `f` named `name`.
pub open spec fn func_text(name: Seq<char>, f: Func) -> Seq<char> {
    "fn "@ + name + "("@ + decimal(f.register_count as nat) + "):\n"@ + blocks_text(f.blocks@) + "\n"@
}

/// The listing of the functions `funcs`, in order.
pub open spec fn funcs_text(funcs: Seq<(String, Func)>) -> Seq<char>
    decreases funcs.len(),
{
    if funcs.len() == 0 {
        Seq::empty()
    } else {
        funcs_text(funcs.drop_last()) + func_text(funcs.last().0@, funcs.last().1)
    }
}

fn push_reg(s: &mut String, r: Reg)
    ensures
        final(s)@ == old(s)@ + reg_text(r),
{
    push_str(s, "r");
    push_decimal(s, r.0);
    assert(final(s)@ =~= old(s)@ + reg_text(r));
}

fn push_regs(s: &mut String, rs: &Vec<Reg>)
    ensures
        final(s)@ == old(s)@ + regs_text(rs@),
{
    let ghost start = s@;
    let mut i: usize = 0;
    while i < rs.len()
        invariant
            i <= rs@.len(),
            s@ == start + regs_text(rs@.take(i as int)),
        decreases rs.len() - i,
    {
        assert(rs@.take(i + 1).drop_last() =~= rs@.take(i as int));
        if i > 0 {
            push_str(s, ", ");
        } else {
            assert(rs@.take(0) =~= Seq::<Reg>::empty());
        }
        push_reg(s, rs[i]);
        proof {
            if i == 0 {
                assert(s@ =~= start + regs_text(rs@.take(1)));
            } else {
                assert(s@ =~= start + regs_text(rs@.take(i + 1)));
            }
        }
        i += 1;
    }
    assert(rs@.take(rs.len() as int) =~= rs@);
}

impl Inst {
    /// The listing of this instruction.
    pub fn to_string(&self) -> (res: String)
        ensures
            res@ == inst_text(*self),
    {
        let mut s = String::new();
        push_inst(&mut s, self);
        assert(s@ =~= inst_text(*self));
        s
    }
}

fn push_three(s: &mut String, d: Reg, op: &str, l: Reg, r: Reg)
    ensures
        final(s)@ == old(s)@ + reg_text(d) + op@ + reg_text(l) + ", "@ + reg_text(r),
{
    push_reg(s, d);
    push_str(s, op);
    push_reg(s, l);
    push_str(s, ", ");
    push_reg(s, r);
    assert(final(s)@ =~= old(s)@ + reg_text(d) + op@ + reg_text(l) + ", "@ + reg_text(r));
}

/// Appends the listing of `i` to `s`.
fn push_inst(s: &mut String, i: &Inst)
    ensures
        final(s)@ == old(s)@ + inst_text(*i),
{
    let ghost start = s@;
    match i {
        Inst::LoadInt(d, v) => {
            push_reg(s, *d);
            push_str(s, " = int ");
            push_decimal(s, *v);
        },
        Inst::LoadBool(d, v) => {
            push_reg(s, *d);
            push_str(s, " = bool ");
            push_bool(s, *v);
        },
        Inst::Assign(d, r) => {
            push_reg(s, *d);
            push_str(s, " = mov ");
            push_reg(s, *r);
        },
        Inst::Add(d, l, r) => push_three(s, *d, " = add ", *l, *r),
        Inst::Sub(d, l, r) => push_three(s, *d, " = sub ", *l, *r),
        Inst::Mul(d, l, r) => push_three(s, *d, " = mul ", *l, *r),
        Inst::AddImm(d, l, imm) => {
            push_reg(s, *d);
            push_str(s, " = add_imm ");
            push_reg(s, *l);
            push_str(s, ", ");
            push_decimal(s, *imm);
        },
        Inst::CmpEq(d, l, r) => push_three(s, *d, " = eq ", *l, *r),
        Inst::CmpLe(d, l, r) => push_three(s, *d, " = le ", *l, *r),
        Inst::FnCall(d, name, args) => {
            push_reg(s, *d);
            push_str(s, " = call ");
            push_str(s, name.as_str());
            push_str(s, "(");
            push_regs(s, args);
            push_str(s, ")");
        },
        Inst::StackAddr(d, ss, off) => {
            push_reg(s, *d);
            push_str(s, " = &s");
            push_decimal(s, ss.0);
            push_str(s, " + ");
            push_decimal(s, *off);
        },
        Inst::StackLoad(d, ss, off) => {
            push_reg(s, *d);
            push_str(s, " = [s");
            push_decimal(s, ss.0);
            push_str(s, " + ");
            push_decimal(s, *off);
            push_str(s, "]");
        },
        Inst::StackStore(ss, off, r) => {
            push_str(s, "[s");
            push_decimal(s, ss.0);
            push_str(s, " + ");
            push_decimal(s, *off);
            push_str(s, "] = ");
            push_reg(s, *r);
        },
        Inst::Load(d, p, off) => {
            push_reg(s, *d);
            push_str(s, " = [r");
            push_decimal(s, p.0);
            push_str(s, " + ");
            push_decimal(s, *off);
            push_str(s, "]");
        },
        Inst::Store(p, off, r) => {
            push_str(s, "[r");
            push_decimal(s, p.0);
            push_str(s, " + ");
            push_decimal(s, *off);
            push_str(s, "] = ");
            push_reg(s, *r);
        },
        Inst::MemCopy { src, dst, len } => {
            push_str(s, "memcpy dst=");
            push_reg(s, *dst);
            push_str(s, ", src=");
            push_reg(s, *src);
            push_str(s, ", len=");
            push_decimal(s, *len);
        },
    }
    assert(s@ =~= start + inst_text(*i));
}

impl Terminator {
    /// The listing of this terminator.
    pub fn to_string(&self) -> (res: String)
        ensures
            res@ == term_text(*self),
    {
        let mut s = String::new();
        push_term(&mut s, self);
        assert(s@ =~= term_text(*self));
        s
    }
}

/// Appends the listing of `t` to `s`.
fn push_term(s: &mut String, t: &Terminator)
    ensures
        final(s)@ == old(s)@ + term_text(*t),
{
    let ghost start = s@;
    match t {
        Terminator::Return(r) => {
            push_str(s, "ret ");
            push_reg(s, *r);
        },
        Terminator::Jump(b) => {
            push_str(s, "jmp b");
            push_decimal(s, b.0);
        },
        Terminator::BranchIf { cond, th, el } => {
            push_str(s, "br ");
            push_reg(s, *cond);
            push_str(s, " b");
            push_decimal(s, th.0);
            push_str(s, " b");
            push_decimal(s, el.0);
        },
    }
    assert(s@ =~= start + term_text(*t));
}

/// Appends the listing of block number `id` to `s`.
fn push_block(s: &mut String, id: usize, b: &Block)
    ensures
        final(s)@ == old(s)@ + block_text(id as nat, *b),
{
    let ghost start = s@;
    push_str(s, "  block ");
    push_decimal(s, id);
    push_str(s, ":\n");
    let ghost head = s@;
    let mut i: usize = 0;
    while i < b.instrs.len()
        invariant
            i <= b.instrs@.len(),
            s@ == head + instrs_text(b.instrs@.take(i as int)),
        decreases b.instrs.len() - i,
    {
        assert(b.instrs@.take(i + 1).drop_last() =~= b.instrs@.take(i as int));
        push_str(s, "    ");
        push_inst(s, &b.instrs[i]);
        push_str(s, "\n");
        assert(s@ =~= head + instrs_text(b.instrs@.take(i + 1)));
        i += 1;
    }
    assert(b.instrs@.take(b.instrs.len() as int) =~= b.instrs@);
    push_str(s, "    ");
    push_term(s, &b.terminator);
    push_str(s, "\n");
    assert(s@ =~= start + block_text(id as nat, *b));
}

/// Appends the listing of the function `f` named `name` to `s`.
fn push_func(s: &mut String, name: &String, f: &Func)
    ensures
        final(s)@ == old(s)@ + func_text(name@, *f),
{
    let ghost start = s@;
    push_str(s, "fn ");
    push_str(s, name.as_str());
    push_str(s, "(");
    push_decimal(s, f.register_count);
    push_str(s, "):\n");
    let ghost head = s@;
    let mut i: usize = 0;
    while i < f.blocks.len()
        invariant
            i <= f.blocks@.len(),
            s@ == head + blocks_text(f.blocks@.take(i as int)),
        decreases f.blocks.len() - i,
    {
        assert(f.blocks@.take(i + 1).drop_last() =~= f.blocks@.take(i as int));
        push_block(s, i, &f.blocks[i]);
        assert(s@ =~= head + blocks_text(f.blocks@.take(i + 1)));
        i += 1;
    }
    assert(f.blocks@.take(f.blocks.len() as int) =~= f.blocks@);
    push_str(s, "\n");
    assert(s@ =~= start + func_text(name@, *f));
}

impl Prog {
    /// The listing of the program: every function with its blocks.
    pub fn to_string(&self) -> (res: String)
        ensures
            res@ == funcs_text(self.funcs@),
    {
        let mut s = String::new();
        let mut i: usize = 0;
        while i < self.funcs.len()
            invariant
                i <= self.funcs@.len(),
                s@ == funcs_text(self.funcs@.take(i as int)),
            decreases self.funcs.len() - i,
        {
            assert(self.funcs@.take(i + 1).drop_last() =~= self.funcs@.take(i as int));
            push_func(&mut s, &self.funcs[i].0, &self.funcs[i].1);
            assert(s@ =~= funcs_text(self.funcs@.take(i + 1)));
            i += 1;
        }
        assert(self.funcs@.take(self.funcs.len() as int) =~= self.funcs@);
        s
    }
}

} // verus!
