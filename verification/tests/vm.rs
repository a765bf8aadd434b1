use must::bytecode::ir::{Block, BlockId, Func, Inst, IrBuilder, Prog, Reg, StackSlot, StackSlotId, Terminator};
use must::vm::{run, RunResult, Step, Trap, Value, VM};

fn func(register_count: usize, blocks: Vec<Block>, stack_slots: Vec<StackSlot>) -> Func {
    Func { register_count, blocks, stack_slots }
}

fn block(instrs: Vec<Inst>, terminator: Terminator) -> Block {
    Block { instrs, terminator }
}

#[test]
fn adds_two_numbers() {
    let main = func(
        3,
        vec![block(
            vec![Inst::LoadInt(Reg(0), 5), Inst::LoadInt(Reg(1), 7), Inst::Add(Reg(2), Reg(0), Reg(1))],
            Terminator::Return(Reg(2)),
        )],
        vec![],
    );
    let (r, out) = run(Prog { funcs: vec![("main".to_string(), main)] }, 100);
    assert_eq!(r, RunResult::Finished(Value::Int(12)));
    assert!(out.is_empty());
}

#[test]
fn branches_on_a_comparison() {
    // if 3 <= 2 { 1 } else { 2 }
    let main = func(
        3,
        vec![
            block(
                vec![Inst::LoadInt(Reg(0), 3), Inst::LoadInt(Reg(1), 2), Inst::CmpLe(Reg(2), Reg(0), Reg(1))],
                Terminator::BranchIf { cond: Reg(2), th: BlockId(1), el: BlockId(2) },
            ),
            block(vec![Inst::LoadInt(Reg(0), 1)], Terminator::Return(Reg(0))),
            block(vec![Inst::LoadInt(Reg(0), 2)], Terminator::Return(Reg(0))),
        ],
        vec![],
    );
    let (r, _) = run(Prog { funcs: vec![("main".to_string(), main)] }, 100);
    assert_eq!(r, RunResult::Finished(Value::Int(2)));
}

#[test]
fn calls_and_prints() {
    // double(x) = x + x; main prints double(21)
    let double = func(2, vec![block(vec![Inst::Add(Reg(1), Reg(0), Reg(0))], Terminator::Return(Reg(1)))], vec![]);
    let main = func(
        3,
        vec![block(
            vec![
                Inst::LoadInt(Reg(0), 21),
                Inst::FnCall(Reg(1), "double".to_string(), vec![Reg(0)]),
                Inst::FnCall(Reg(2), "printnum".to_string(), vec![Reg(1)]),
            ],
            Terminator::Return(Reg(2)),
        )],
        vec![],
    );
    let prog = Prog { funcs: vec![("double".to_string(), double), ("main".to_string(), main)] };
    let (r, out) = run(prog, 100);
    assert_eq!(r, RunResult::Finished(Value::Null));
    assert_eq!(out, vec![42]);
}

#[test]
fn stack_slots_store_and_load() {
    let main = func(
        3,
        vec![block(
            vec![
                Inst::LoadInt(Reg(0), 9),
                Inst::StackStore(StackSlotId(1), 1, Reg(0)),
                Inst::StackLoad(Reg(1), StackSlotId(1), 1),
                Inst::StackAddr(Reg(2), StackSlotId(1), 0),
            ],
            Terminator::Return(Reg(1)),
        )],
        vec![StackSlot { size: 2 }, StackSlot { size: 2 }],
    );
    let (r, _) = run(Prog { funcs: vec![("main".to_string(), main)] }, 100);
    assert_eq!(r, RunResult::Finished(Value::Int(9)));
}

#[test]
fn bad_register_traps() {
    let main = func(1, vec![block(vec![Inst::LoadInt(Reg(3), 1)], Terminator::Return(Reg(0)))], vec![]);
    let (r, _) = run(Prog { funcs: vec![("main".to_string(), main)] }, 100);
    assert_eq!(r, RunResult::Trapped(Trap::BadRegister));
}

#[test]
fn bad_block_traps() {
    let main = func(1, vec![block(vec![], Terminator::Jump(BlockId(5)))], vec![]);
    let (r, _) = run(Prog { funcs: vec![("main".to_string(), main)] }, 100);
    assert_eq!(r, RunResult::Trapped(Trap::BadBlock));
}

#[test]
fn subtraction_below_zero_traps() {
    let main = func(
        3,
        vec![block(
            vec![Inst::LoadInt(Reg(0), 1), Inst::LoadInt(Reg(1), 2), Inst::Sub(Reg(2), Reg(0), Reg(1))],
            Terminator::Return(Reg(2)),
        )],
        vec![],
    );
    let (r, _) = run(Prog { funcs: vec![("main".to_string(), main)] }, 100);
    assert_eq!(r, RunResult::Trapped(Trap::Overflow));
}

#[test]
fn calling_an_unknown_function_traps() {
    let main = func(1, vec![block(vec![Inst::FnCall(Reg(0), "nope".to_string(), vec![])], Terminator::Return(Reg(0)))], vec![]);
    let (r, _) = run(Prog { funcs: vec![("main".to_string(), main)] }, 100);
    assert_eq!(r, RunResult::Trapped(Trap::UnknownFunction));
}

#[test]
fn endless_loop_runs_out_of_fuel() {
    let main = func(1, vec![block(vec![], Terminator::Jump(BlockId(0)))], vec![]);
    let (r, _) = run(Prog { funcs: vec![("main".to_string(), main)] }, 50);
    assert_eq!(r, RunResult::OutOfFuel);
}

#[test]
fn stepping_one_instruction_at_a_time() {
    let main = func(1, vec![block(vec![Inst::LoadBool(Reg(0), true)], Terminator::Return(Reg(0)))], vec![]);
    let mut vm = VM::new(Prog { funcs: vec![("main".to_string(), main)] });
    assert!(!vm.is_running());
    assert_eq!(vm.call_func(0, vec![], 0), RunResult::OutOfFuel);
    assert!(vm.is_running());
    assert_eq!(vm.step(), Step::Running);
    assert_eq!(vm.step(), Step::Finished(Value::True));
    assert!(!vm.is_running());
}

#[test]
fn memcopy_copies_cells() {
    let main = func(
        5,
        vec![block(
            vec![
                Inst::LoadInt(Reg(0), 4),
                Inst::StackStore(StackSlotId(0), 0, Reg(0)),
                Inst::LoadInt(Reg(0), 5),
                Inst::StackStore(StackSlotId(0), 1, Reg(0)),
                Inst::StackAddr(Reg(1), StackSlotId(0), 0),
                Inst::StackAddr(Reg(2), StackSlotId(1), 0),
                Inst::MemCopy { src: Reg(1), dst: Reg(2), len: 2 },
                Inst::Load(Reg(3), Reg(2), 1),
            ],
            Terminator::Return(Reg(3)),
        )],
        vec![StackSlot { size: 2 }, StackSlot { size: 2 }],
    );
    let (r, _) = run(Prog { funcs: vec![("main".to_string(), main)] }, 100);
    assert_eq!(r, RunResult::Finished(Value::Int(5)));
}

#[test]
fn builder_hands_out_fresh_registers_and_blocks() {
    let mut b = IrBuilder::new();
    assert_eq!(b.new_reg(), Reg(0));
    assert_eq!(b.new_reg(), Reg(1));
    assert_eq!(b.new_block(), BlockId(1));
    assert_eq!(b.new_stack_slot(3), StackSlotId(0));
    b.push_instr(Inst::LoadInt(Reg(0), 1));
    b.switch_to_block(BlockId(1));
    b.push_instr(Inst::LoadInt(Reg(1), 2));
    b.finish_block(Terminator::Return(Reg(1)));
    assert_eq!(b.blocks[0].instrs.len(), 1);
    assert_eq!(b.blocks[1].instrs.len(), 1);
    assert_eq!(b.next_reg, 2);
    assert_eq!(b.stack_slots[0].size, 3);
}

#[test]
fn listings_of_instructions_and_programs() {
    assert_eq!(Inst::LoadInt(Reg(1), 42).to_string(), "r1 = int 42");
    assert_eq!(Inst::LoadBool(Reg(0), false).to_string(), "r0 = bool false");
    assert_eq!(Inst::Assign(Reg(3), Reg(10)).to_string(), "r3 = mov r10");
    assert_eq!(Inst::Add(Reg(0), Reg(1), Reg(2)).to_string(), "r0 = add r1, r2");
    assert_eq!(Inst::AddImm(Reg(0), Reg(1), 7).to_string(), "r0 = add_imm r1, 7");
    assert_eq!(Inst::CmpLe(Reg(0), Reg(1), Reg(2)).to_string(), "r0 = le r1, r2");
    assert_eq!(Inst::FnCall(Reg(0), "f".to_string(), vec![Reg(1), Reg(2)]).to_string(), "r0 = call f(r1, r2)");
    assert_eq!(Inst::FnCall(Reg(0), "g".to_string(), vec![]).to_string(), "r0 = call g()");
    assert_eq!(Inst::StackAddr(Reg(4), StackSlotId(2), 1).to_string(), "r4 = &s2 + 1");
    assert_eq!(Inst::StackLoad(Reg(4), StackSlotId(2), 1).to_string(), "r4 = [s2 + 1]");
    assert_eq!(Inst::StackStore(StackSlotId(2), 1, Reg(4)).to_string(), "[s2 + 1] = r4");
    assert_eq!(Inst::Load(Reg(4), Reg(5), 0).to_string(), "r4 = [r5 + 0]");
    assert_eq!(Inst::Store(Reg(5), 3, Reg(4)).to_string(), "[r5 + 3] = r4");
    assert_eq!(Inst::MemCopy { src: Reg(1), dst: Reg(2), len: 3 }.to_string(), "memcpy dst=r2, src=r1, len=3");
    assert_eq!(Terminator::BranchIf { cond: Reg(0), th: BlockId(1), el: BlockId(2) }.to_string(), "br r0 b1 b2");
    assert_eq!(Terminator::Jump(BlockId(7)).to_string(), "jmp b7");
    assert_eq!(Terminator::Return(Reg(0)).to_string(), "ret r0");
    let main = func(1, vec![block(vec![Inst::LoadInt(Reg(0), 1)], Terminator::Return(Reg(0)))], vec![]);
    let prog = Prog { funcs: vec![("main".to_string(), main)] };
    assert_eq!(prog.to_string(), "fn main(1):\n  block 0:\n    r0 = int 1\n    ret r0\n\n");
}

#[test]
fn a_finished_call_restores_the_stack_pointer() {
    let main = func(
        2,
        vec![block(
            vec![Inst::LoadInt(Reg(0), 9), Inst::StackStore(StackSlotId(1), 1, Reg(0))],
            Terminator::Return(Reg(0)),
        )],
        vec![StackSlot { size: 2 }, StackSlot { size: 3 }],
    );
    let mut vm = VM::new(Prog { funcs: vec![("main".to_string(), main)] });
    let r = vm.call_func_name(&"main".to_string(), vec![], 100);
    assert_eq!(r, RunResult::Finished(Value::Int(9)));
    assert_eq!(vm.stack_ptr, 0);
}
