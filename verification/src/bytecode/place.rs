//! Places: where a value of the lowered program lives.

use crate::bytecode::ir::{self, inst_ok, Inst, IrBuilder, Reg};
use vstd::prelude::*;

verus! {

#[derive(Debug, Clone, Copy)]
pub enum Place {
    /// In a register.
    Reg(Reg),
    /// In memory, `offset` cells after the address held in `base`.
    DynamicPtr { base: Reg, offset: usize },
    /// In memory, `offset` cells into a stack slot of the current frame.
    Stack { slot: ir::StackSlotId, offset: usize },
}

/// The place only mentions a register below `nr` or a stack slot below `ns`.
pub open spec fn place_ok(p: Place, nr: nat, ns: nat) -> bool {
    match p {
        Place::Reg(r) => r.0 < nr,
        Place::DynamicPtr { base, .. } => base.0 < nr,
        Place::Stack { slot, .. } => slot.0 < ns,
    }
}

impl Place {
    /// The offset of a memory place (a register has none).
    pub open spec fn offset(self) -> int {
        match self {
            Place::Reg(_) => 0,
            Place::DynamicPtr { offset, .. } => offset as int,
            Place::Stack { offset, .. } => offset as int,
        }
    }

    /// The same place moved `n` cells further.
    pub open spec fn spec_add_offset(self, n: usize) -> Place {
        match self {
            Place::DynamicPtr { base, offset } => Place::DynamicPtr { base, offset: (offset + n) as usize },
            Place::Stack { slot, offset } => Place::Stack { slot, offset: (offset + n) as usize },
            Place::Reg(r) => Place::Reg(r),
        }
    }

    /// The place `n` cells after this memory place.
    pub fn add_offset(self, n: usize) -> (res: Self)
        requires
            !(self is Reg),
            self.offset() + n <= usize::MAX,
        ensures
            res == self.spec_add_offset(n),
    {
        match self {
            Place::DynamicPtr { base, offset } => Place::DynamicPtr { base, offset: offset + n },
            Place::Stack { slot, offset } => Place::Stack { slot, offset: offset + n },
            Place::Reg(r) => Place::Reg(r),
        }
    }

    /// The instruction that puts the address of this memory place into `dst`.
    pub open spec fn addr_instr(self, dst: Reg) -> Inst {
        match self {
            Place::DynamicPtr { base, offset } => Inst::AddImm(dst, base, offset),
            Place::Stack { slot, offset } => Inst::StackAddr(dst, slot, offset),
            Place::Reg(r) => Inst::Assign(dst, r),
        }
    }

    /// Emits the computation of this memory place's address into a fresh
    /// register, and returns that register.
    pub fn as_addr(&self, builder: &mut IrBuilder) -> (r: Reg)
        requires
            !(*self is Reg),
            old(builder).wf(),
            old(builder).next_reg < usize::MAX,
        ensures
            r == Reg(old(builder).next_reg),
            final(builder).next_reg == old(builder).next_reg + 1,
            final(builder).appended_regs(old(builder), seq![self.addr_instr(r)]),
            final(builder).wf(),
            old(builder).valid() && place_ok(*self, old(builder).next_reg as nat, old(builder).stack_slots@.len())
                ==> final(builder).valid(),
    {
        let reg = builder.new_reg();
        match self {
            Place::DynamicPtr { base, offset } => builder.push_instr(Inst::AddImm(reg, *base, *offset)),
            Place::Stack { slot, offset } => builder.push_instr(Inst::StackAddr(reg, *slot, *offset)),
            Place::Reg(r) => builder.push_instr(Inst::Assign(reg, *r)),
        }
        reg
    }
}

/// The instructions that load the scalar at `place` into `dst`, when `place`
/// is in memory.
pub open spec fn load_instrs(place: Place, dst: Reg) -> Seq<Inst> {
    match place {
        Place::DynamicPtr { base, offset } => seq![Inst::Load(dst, base, offset)],
        Place::Stack { slot, offset } => seq![Inst::StackLoad(dst, slot, offset)],
        Place::Reg(_) => Seq::empty(),
    }
}

/// The instruction that stores the register `src` into `dest`.
pub open spec fn store_instr(dest: Place, src: Reg) -> Inst {
    match dest {
        Place::DynamicPtr { base, offset } => Inst::Store(base, offset, src),
        Place::Stack { slot, offset } => Inst::StackStore(slot, offset, src),
        Place::Reg(reg_dest) => Inst::Assign(reg_dest, src),
    }
}

impl IrBuilder {
    /// Makes the scalar at `place` available in a register: the register
    /// itself, or a fresh one that it is loaded into.
    pub fn load_from_place(&mut self, place: Place) -> (r: Reg)
        requires
            old(self).wf(),
            old(self).next_reg < usize::MAX,
        ensures
            final(self).wf(),
            match place {
                Place::Reg(reg) => r == reg && *final(self) == *old(self),
                _ => r == Reg(old(self).next_reg) && final(self).next_reg == old(self).next_reg + 1,
            },
            final(self).appended_regs(old(self), load_instrs(place, r)),
            place_ok(place, old(self).next_reg as nat, old(self).stack_slots@.len()) ==> r.0 < final(self).next_reg,
            old(self).valid() && place_ok(place, old(self).next_reg as nat, old(self).stack_slots@.len())
                ==> final(self).valid(),
    {
        match place {
            Place::DynamicPtr { base, offset } => {
                let reg = self.new_reg();
                self.push_instr(Inst::Load(reg, base, offset));
                reg
            },
            Place::Stack { slot, offset } => {
                let reg = self.new_reg();
                self.push_instr(Inst::StackLoad(reg, slot, offset));
                reg
            },
            Place::Reg(reg) => {
                assert(self.current_instrs() =~= self.current_instrs() + load_instrs(place, reg));
                reg
            },
        }
    }

    /// Stores the register `reg` into `dest`.
    pub fn store_to_place(&mut self, dest: Place, reg: Reg)
        requires
            old(self).wf(),
        ensures
            final(self).wf(),
            final(self).next_reg == old(self).next_reg,
            final(self).appended(old(self), seq![store_instr(dest, reg)]),
            old(self).valid() && place_ok(dest, old(self).next_reg as nat, old(self).stack_slots@.len())
                && reg.0 < old(self).next_reg ==> final(self).valid(),
    {
        match dest {
            Place::DynamicPtr { base, offset } => self.push_instr(Inst::Store(base, offset, reg)),
            Place::Stack { slot, offset } => self.push_instr(Inst::StackStore(slot, offset, reg)),
            Place::Reg(reg_dest) => self.push_instr(Inst::Assign(reg_dest, reg)),
        }
    }
}

} // verus!
