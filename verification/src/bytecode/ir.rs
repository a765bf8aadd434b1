//! The register-based intermediate representation executed by the VM, and the
//! builder that the lowering pass emits it through.

use vstd::prelude::*;

verus! {

/// A whole program: its functions, each under its name. Names are distinct.
#[derive(Debug, Clone, PartialEq)]
pub struct Prog {
    pub funcs: Vec<(String, Func)>,
}

#[derive(Debug, Clone, Copy, PartialEq, Eq, Hash)]
pub struct Reg(pub usize);

#[derive(Debug, Clone, Copy, PartialEq, Eq, Hash)]
pub struct BlockId(pub usize);

#[derive(Debug, Clone, Copy, PartialEq, Eq, Hash)]
pub struct StackSlotId(pub usize);

#[derive(Debug, Clone, PartialEq)]
pub struct Func {
    pub register_count: usize,
    pub blocks: Vec<Block>,
    pub stack_slots: Vec<StackSlot>,
}

#[derive(Debug, Clone, PartialEq)]
pub struct StackSlot {
    pub size: usize,
}

#[derive(Debug, Clone, PartialEq)]
pub struct Block {
    pub instrs: Vec<Inst>,
    pub terminator: Terminator,
}

#[derive(Debug, Clone, PartialEq)]
pub enum Inst {
    /// `r1 <- int`
    LoadInt(Reg, usize),
    /// `r1 <- bool`
    LoadBool(Reg, bool),
    /// `r1 <- r2 + r3`
    Add(Reg, Reg, Reg),
    /// `r1 <- r2 - r3`
    Sub(Reg, Reg, Reg),
    /// `r1 <- r2 * r3`
    Mul(Reg, Reg, Reg),
    /// `r1 <- r2 + imm`
    AddImm(Reg, Reg, usize),
    /// `r1 <- r2`
    Assign(Reg, Reg),
    /// `r1 <- name(regs)`
    FnCall(Reg, String, Vec<Reg>),
    /// `r1 <- r2 == r3`
    CmpEq(Reg, Reg, Reg),
    /// `r1 <- r2 <= r3`
    CmpLe(Reg, Reg, Reg),
    /// `r1 <- address of (slot + offset)`
    StackAddr(Reg, StackSlotId, usize),
    /// `r1 <- *(slot + offset)`
    StackLoad(Reg, StackSlotId, usize),
    /// `*(slot + offset) <- r1`
    StackStore(StackSlotId, usize, Reg),
    /// `r1 <- *(r2 + offset)`
    Load(Reg, Reg, usize),
    /// `*(r1 + offset) <- r2`
    Store(Reg, usize, Reg),
    /// Copies `len` cells from the address in `src` to the address in `dst`.
    MemCopy { src: Reg, dst: Reg, len: usize },
}

#[derive(Debug, Clone, Copy, PartialEq)]
pub enum Terminator {
    Return(Reg),
    Jump(BlockId),
    BranchIf { cond: Reg, th: BlockId, el: BlockId },
}


/// Every register `i` mentions is below `nr`, and every stack slot below `ns`.
pub open spec fn inst_ok(i: Inst, nr: nat, ns: nat) -> bool {
    match i {
        Inst::LoadInt(d, _) => d.0 < nr,
        Inst::LoadBool(d, _) => d.0 < nr,
        Inst::Add(d, a, b) => d.0 < nr && a.0 < nr && b.0 < nr,
        Inst::Sub(d, a, b) => d.0 < nr && a.0 < nr && b.0 < nr,
        Inst::Mul(d, a, b) => d.0 < nr && a.0 < nr && b.0 < nr,
        Inst::AddImm(d, a, _) => d.0 < nr && a.0 < nr,
        Inst::Assign(d, a) => d.0 < nr && a.0 < nr,
        Inst::FnCall(d, _, args) => d.0 < nr && forall|k: int| 0 <= k < args@.len() ==> (#[trigger] args@[k]).0 < nr,
        Inst::CmpEq(d, a, b) => d.0 < nr && a.0 < nr && b.0 < nr,
        Inst::CmpLe(d, a, b) => d.0 < nr && a.0 < nr && b.0 < nr,
        Inst::StackAddr(d, s, _) => d.0 < nr && s.0 < ns,
        Inst::StackLoad(d, s, _) => d.0 < nr && s.0 < ns,
        Inst::StackStore(s, _, r) => s.0 < ns && r.0 < nr,
        Inst::Load(d, a, _) => d.0 < nr && a.0 < nr,
        Inst::Store(a, _, b) => a.0 < nr && b.0 < nr,
        Inst::MemCopy { src, dst, .. } => src.0 < nr && dst.0 < nr,
    }
}

/// Every register `t` mentions is below `nr` (register 0 always counts, as
/// every finished function has one), and every block below `nb`.
pub open spec fn term_ok(t: Terminator, nr: nat, nb: nat) -> bool {
    match t {
        Terminator::Return(r) => r.0 == 0 || r.0 < nr,
        Terminator::Jump(b) => b.0 < nb,
        Terminator::BranchIf { cond, th, el } => cond.0 < nr && th.0 < nb && el.0 < nb,
    }
}

/// The blocks only mention registers below `nr`, stack slots below `ns`,
/// and blocks among themselves.
pub open spec fn blocks_ok(blocks: Seq<Block>, nr: nat, ns: nat) -> bool {
    &&& forall|b: int, j: int| 0 <= b < blocks.len() && 0 <= j < blocks[b].instrs@.len()
        ==> inst_ok(#[trigger] blocks[b].instrs@[j], nr, ns)
    &&& forall|b: int| 0 <= b < blocks.len() ==> term_ok(#[trigger] blocks[b].terminator, nr, blocks.len())
}

impl Func {
    /// The function is closed: it has an entry block and a register, and
    /// it only mentions its own registers, blocks and stack slots.
    pub open spec fn valid(&self) -> bool {
        &&& self.register_count >= 1
        &&& self.blocks@.len() >= 1
        &&& blocks_ok(self.blocks@, self.register_count as nat, self.stack_slots@.len())
    }
}


pub struct IrBuilder {
    pub blocks: Vec<Block>,
    pub current_block: BlockId,
    pub stack_slots: Vec<StackSlot>,
    pub next_reg: usize,
}

/// The terminator that a freshly created block carries.
pub open spec fn default_terminator() -> Terminator {
    Terminator::Return(Reg(0))
}

impl IrBuilder {
    /// The builder can append to its current block.
    pub open spec fn wf(&self) -> bool {
        self.current_block.0 < self.blocks@.len()
    }

    /// The builder only mentions the registers, blocks and stack slots it
    /// has handed out.
    pub open spec fn valid(&self) -> bool {
        blocks_ok(self.blocks@, self.next_reg as nat, self.stack_slots@.len())
    }

    /// The instructions of the current block.
    pub open spec fn current_instrs(&self) -> Seq<Inst> {
        self.blocks@[self.current_block.0 as int].instrs@
    }

    /// `self` is `old` with `extra` appended to the current block; nothing
    /// else changed.
    pub open spec fn appended(&self, old: &IrBuilder, extra: Seq<Inst>) -> bool {
        &&& self.current_block == old.current_block
        &&& self.next_reg == old.next_reg
        &&& self.stack_slots@ == old.stack_slots@
        &&& self.blocks@.len() == old.blocks@.len()
        &&& self.current_instrs() == old.current_instrs() + extra
        &&& self.blocks@[self.current_block.0 as int].terminator
            == old.blocks@[old.current_block.0 as int].terminator
        &&& forall|b: int|
            0 <= b < self.blocks@.len() && b != self.current_block.0 ==> #[trigger] self.blocks@[b]
                == old.blocks@[b]
    }

    /// `self` is `old` with `extra` appended to the current block, after
    /// registers were allocated; nothing else changed.
    pub open spec fn appended_regs(&self, old: &IrBuilder, extra: Seq<Inst>) -> bool {
        &&& self.current_block == old.current_block
        &&& self.next_reg >= old.next_reg
        &&& self.stack_slots@ == old.stack_slots@
        &&& self.blocks@.len() == old.blocks@.len()
        &&& self.current_instrs() == old.current_instrs() + extra
        &&& self.blocks@[self.current_block.0 as int].terminator
            == old.blocks@[old.current_block.0 as int].terminator
        &&& forall|b: int|
            0 <= b < self.blocks@.len() && b != self.current_block.0 ==> #[trigger] self.blocks@[b]
                == old.blocks@[b]
    }

    pub fn new() -> (res: Self)
        ensures
            res.blocks@.len() == 1,
            res.blocks@[0].instrs@ == Seq::<Inst>::empty(),
            res.blocks@[0].terminator == default_terminator(),
            res.stack_slots@ == Seq::<StackSlot>::empty(),
            res.current_block == BlockId(0),
            res.next_reg == 0,
            res.wf(),
            res.valid(),
    {
        IrBuilder {
            blocks: vec![Block { instrs: Vec::new(), terminator: Terminator::Return(Reg(0)) }],
            stack_slots: Vec::new(),
            current_block: BlockId(0),
            next_reg: 0,
        }
    }

    /// A register that no instruction has used yet.
    pub fn new_reg(&mut self) -> (r: Reg)
        requires
            old(self).next_reg < usize::MAX,
        ensures
            r == Reg(old(self).next_reg),
            final(self).next_reg == old(self).next_reg + 1,
            final(self).blocks == old(self).blocks,
            final(self).stack_slots == old(self).stack_slots,
            final(self).current_block == old(self).current_block,
            old(self).valid() ==> final(self).valid(),
    {
        let r = Reg(self.next_reg);
        self.next_reg += 1;
        r
    }

    /// Appends `instr` to the current block.
    pub fn push_instr(&mut self, instr: Inst)
        requires
            old(self).wf(),
        ensures
            final(self).appended(old(self), seq![instr]),
            final(self).wf(),
            old(self).valid() && inst_ok(instr, old(self).next_reg as nat, old(self).stack_slots@.len()) ==> final(self).valid(),
    {
        let cur = self.current_block.0;
        self.blocks[cur].instrs.push(instr);
        assert(self.current_instrs() =~= old(self).current_instrs() + seq![instr]);
        proof {
            if old(self).valid() && inst_ok(instr, old(self).next_reg as nat, old(self).stack_slots@.len()) {
                assert forall|b: int, j: int| 0 <= b < self.blocks@.len() && 0 <= j < self.blocks@[b].instrs@.len()
                    implies inst_ok(#[trigger] self.blocks@[b].instrs@[j], self.next_reg as nat, self.stack_slots@.len()) by {
                    if b == cur as int {
                        if j < old(self).blocks@[b].instrs@.len() {
                            assert(self.blocks@[b].instrs@[j] == old(self).blocks@[b].instrs@[j]);
                        }
                    } else {
                        assert(self.blocks@[b] == old(self).blocks@[b]);
                    }
                }
                assert forall|b: int| 0 <= b < self.blocks@.len() implies term_ok(#[trigger] self.blocks@[b].terminator, self.next_reg as nat, self.blocks@.len()) by {
                    assert(self.blocks@[b].terminator == old(self).blocks@[b].terminator);
                }
            }
        }
    }

    /// Ends the current block with `t`.
    pub fn finish_block(&mut self, t: Terminator)
        requires
            old(self).wf(),
        ensures
            final(self).current_block == old(self).current_block,
            final(self).next_reg == old(self).next_reg,
            final(self).stack_slots@ == old(self).stack_slots@,
            final(self).blocks@.len() == old(self).blocks@.len(),
            final(self).current_instrs() == old(self).current_instrs(),
            final(self).blocks@[final(self).current_block.0 as int].terminator == t,
            forall|b: int|
                0 <= b < final(self).blocks@.len() && b != old(self).current_block.0
                    ==> #[trigger] final(self).blocks@[b] == old(self).blocks@[b],
            final(self).wf(),
            old(self).valid() && term_ok(t, old(self).next_reg as nat, old(self).blocks@.len()) ==> final(self).valid(),
    {
        let cur = self.current_block.0;
        self.blocks[cur].terminator = t;
        proof {
            if old(self).valid() && term_ok(t, old(self).next_reg as nat, old(self).blocks@.len()) {
                assert forall|b: int, j: int| 0 <= b < self.blocks@.len() && 0 <= j < self.blocks@[b].instrs@.len()
                    implies inst_ok(#[trigger] self.blocks@[b].instrs@[j], self.next_reg as nat, self.stack_slots@.len()) by {
                    assert(self.blocks@[b].instrs@ == old(self).blocks@[b].instrs@);
                }
                assert forall|b: int| 0 <= b < self.blocks@.len() implies term_ok(#[trigger] self.blocks@[b].terminator, self.next_reg as nat, self.blocks@.len()) by {
                    if b != cur as int {
                        assert(self.blocks@[b] == old(self).blocks@[b]);
                    }
                }
            }
        }
    }

    /// Appends an empty block and returns its id; the current block stays.
    pub fn new_block(&mut self) -> (id: BlockId)
        ensures
            id == BlockId(old(self).blocks@.len() as usize),
            final(self).blocks@.len() == old(self).blocks@.len() + 1,
            forall|b: int| 0 <= b < old(self).blocks@.len() ==> #[trigger] final(self).blocks@[b] == old(self).blocks@[b],
            final(self).blocks@[id.0 as int].instrs@ == Seq::<Inst>::empty(),
            final(self).blocks@[id.0 as int].terminator == default_terminator(),
            final(self).current_block == old(self).current_block,
            final(self).next_reg == old(self).next_reg,
            final(self).stack_slots == old(self).stack_slots,
            old(self).wf() ==> final(self).wf(),
            old(self).valid() ==> final(self).valid(),
    {
        self.blocks.push(Block { instrs: Vec::new(), terminator: Terminator::Return(Reg(0)) });
        proof {
            if old(self).valid() {
                assert forall|b: int, j: int| 0 <= b < self.blocks@.len() && 0 <= j < self.blocks@[b].instrs@.len()
                    implies inst_ok(#[trigger] self.blocks@[b].instrs@[j], self.next_reg as nat, self.stack_slots@.len()) by {
                    assert(b < old(self).blocks@.len());
                    assert(self.blocks@[b] == old(self).blocks@[b]);
                }
                assert forall|b: int| 0 <= b < self.blocks@.len() implies term_ok(#[trigger] self.blocks@[b].terminator, self.next_reg as nat, self.blocks@.len()) by {
                    if b < old(self).blocks@.len() {
                        assert(self.blocks@[b] == old(self).blocks@[b]);
                    }
                }
            }
        }
        BlockId(self.blocks.len() - 1)
    }

    /// Makes `id` the block that instructions are appended to.
    pub fn switch_to_block(&mut self, id: BlockId)
        ensures
            final(self).current_block == id,
            final(self).blocks == old(self).blocks,
            final(self).next_reg == old(self).next_reg,
            final(self).stack_slots == old(self).stack_slots,
            old(self).valid() ==> final(self).valid(),
    {
        self.current_block = id
    }

    /// Reserves a new stack slot of `size` cells and returns its id.
    pub fn new_stack_slot(&mut self, size: usize) -> (id: StackSlotId)
        ensures
            id == StackSlotId(old(self).stack_slots@.len() as usize),
            final(self).stack_slots@.len() == old(self).stack_slots@.len() + 1,
            forall|s: int| 0 <= s < old(self).stack_slots@.len() ==> #[trigger] final(self).stack_slots@[s] == old(self).stack_slots@[s],
            final(self).stack_slots@[id.0 as int].size == size,
            final(self).blocks == old(self).blocks,
            final(self).current_block == old(self).current_block,
            final(self).next_reg == old(self).next_reg,
            old(self).valid() ==> final(self).valid(),
    {
        self.stack_slots.push(StackSlot { size });
        StackSlotId(self.stack_slots.len() - 1)
    }
}

} // verus!
