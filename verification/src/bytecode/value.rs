//! What lowering an expression yields.

use crate::bytecode::ir::{Inst, IrBuilder, Reg};
use crate::bytecode::place::{load_instrs, place_ok, store_instr, Place};
use vstd::prelude::*;

verus! {

#[derive(Debug, Clone, Copy)]
pub enum Value {
    /// The value of type `()`: nothing to store.
    Unit,
    /// An integer literal that has not been materialised yet.
    Int(usize),
    /// A value that lives at a place.
    LVal(Place),
}

/// The value only mentions registers below `nr` and stack slots below `ns`.
pub open spec fn value_ok(v: Value, nr: nat, ns: nat) -> bool {
    match v {
        Value::LVal(p) => place_ok(p, nr, ns),
        _ => true,
    }
}

/// The instructions `write_to` emits when the next free register is `n`.
pub open spec fn write_instrs(v: Value, dest: Place, size: usize, n: usize) -> Seq<Inst> {
    match v {
        Value::LVal(src) => match (src, dest) {
            (Place::Reg(r), _) => seq![store_instr(dest, r)],
            (_, Place::Reg(_)) => load_instrs(src, Reg(n)) + seq![store_instr(dest, Reg(n))],
            (_, _) => seq![
                src.addr_instr(Reg(n)),
                dest.addr_instr(Reg((n + 1) as usize)),
                Inst::MemCopy { src: Reg(n), dst: Reg((n + 1) as usize), len: size },
            ],
        },
        Value::Unit => Seq::empty(),
        Value::Int(k) => seq![Inst::LoadInt(Reg(n), k), store_instr(dest, Reg(n))],
    }
}

/// How many registers `write_to` allocates.
pub open spec fn write_regs(v: Value, dest: Place) -> nat {
    match v {
        Value::LVal(src) => match (src, dest) {
            (Place::Reg(_), _) => 0,
            (_, Place::Reg(_)) => 1,
            (_, _) => 2,
        },
        Value::Unit => 0,
        Value::Int(_) => 1,
    }
}

impl Value {
    /// Makes this scalar value available in a register.
    pub fn load_scalar(self, builder: &mut IrBuilder) -> (r: Reg)
        requires
            !(self is Unit),
            old(builder).wf(),
            old(builder).next_reg < usize::MAX,
        ensures
            final(builder).wf(),
            match self {
                Value::LVal(place) => {
                    &&& place is Reg ==> r == place->Reg_0 && *final(builder) == *old(builder)
                    &&& !(place is Reg) ==> r == Reg(old(builder).next_reg)
                        && final(builder).next_reg == old(builder).next_reg + 1
                    &&& final(builder).appended_regs(old(builder), load_instrs(place, r))
                },
                Value::Int(n) => {
                    &&& r == Reg(old(builder).next_reg)
                    &&& final(builder).next_reg == old(builder).next_reg + 1
                    &&& final(builder).appended_regs(old(builder), seq![Inst::LoadInt(r, n)])
                },
                Value::Unit => false,
            },
            value_ok(self, old(builder).next_reg as nat, old(builder).stack_slots@.len()) ==> r.0 < final(builder).next_reg,
            old(builder).valid() && value_ok(self, old(builder).next_reg as nat, old(builder).stack_slots@.len())
                ==> final(builder).valid(),
    {
        match self {
            Value::LVal(place) => builder.load_from_place(place),
            Value::Unit => Reg(0),
            Value::Int(n) => {
                let reg = builder.new_reg();
                builder.push_instr(Inst::LoadInt(reg, n));
                reg
            },
        }
    }

    /// Writes this value of `size` cells into `dest`.
    pub fn write_to(self, dest: Place, size: usize, builder: &mut IrBuilder)
        requires
            old(builder).wf(),
            old(builder).next_reg + 2 <= usize::MAX,
        ensures
            final(builder).wf(),
            final(builder).next_reg == old(builder).next_reg + write_regs(self, dest),
            final(builder).appended_regs(
                old(builder),
                write_instrs(self, dest, size, old(builder).next_reg),
            ),
            old(builder).valid() && value_ok(self, old(builder).next_reg as nat, old(builder).stack_slots@.len())
                && place_ok(dest, old(builder).next_reg as nat, old(builder).stack_slots@.len()) ==> final(builder).valid(),
    {
        let ghost n = builder.next_reg;
        match self {
            Value::LVal(src) => match (src, dest) {
                (Place::Reg(reg), _) => builder.store_to_place(dest, reg),
                (_, Place::Reg(_)) => {
                    let reg = builder.load_from_place(src);
                    builder.store_to_place(dest, reg);
                    assert(builder.current_instrs() =~= old(builder).current_instrs()
                        + write_instrs(self, dest, size, n));
                },
                (_, _) => {
                    let r1 = src.as_addr(builder);
                    let r2 = dest.as_addr(builder);
                    builder.push_instr(Inst::MemCopy { src: r1, dst: r2, len: size });
                    assert(builder.current_instrs() =~= old(builder).current_instrs()
                        + write_instrs(self, dest, size, n));
                },
            },
            Value::Unit => {
                assert(builder.current_instrs() =~= old(builder).current_instrs()
                    + write_instrs(self, dest, size, n));
            },
            Value::Int(_) => {
                let reg = self.load_scalar(builder);
                builder.store_to_place(dest, reg);
                assert(builder.current_instrs() =~= old(builder).current_instrs()
                    + write_instrs(self, dest, size, n));
            },
        }
    }
}

} // verus!
