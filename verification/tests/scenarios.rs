use shiba_jit::codegen::x86_64::{
    analyze, compute_register_map, generate_code, AsmOp, CodeGenErrorReason, Label,
    MachineRegister, Program,
};
use shiba_jit::ir::{BasicBlockIndex, Context, PrimitiveValue, Value, IR};
use shiba_jit::reg_alloc::compute_graph;
use std::collections::HashMap;

const HOST_PRINT: u64 = 0xfeed_f00d;
const CONSTANT_BASE: u64 = 0x4000_0000;
const STACK_TOP: u64 = 0x8000_0000;

struct Machine {
    regs: [u64; 16],
    mem: HashMap<u64, u8>,
    out: Vec<u8>,
    zero: bool,
}

fn reg_index(m: MachineRegister) -> usize {
    m.encoding() as usize
}

fn read(mach: &Machine, addr: u64, bytes: u64) -> u64 {
    let mut v: u64 = 0;
    for i in 0..bytes {
        let b = *mach.mem.get(&addr.wrapping_add(i)).unwrap_or(&0);
        v |= (b as u64) << (8 * i);
    }
    v
}

fn write(mach: &mut Machine, addr: u64, bytes: u64, v: u64) {
    for i in 0..bytes {
        mach.mem.insert(addr.wrapping_add(i), (v >> (8 * i)) as u8);
    }
}

fn find_label(program: &Program, label: Label) -> usize {
    program.ops.iter().position(|op| *op == AsmOp::Bind(label)).unwrap()
}

/// Runs the program from its entry until its `ret` and returns the machine.
fn run_program(ctx: &Context, program: &Program, limit: usize) -> Machine {
    let mut mach = Machine { regs: [0; 16], mem: HashMap::new(), out: Vec::new(), zero: false };
    let sp = reg_index(MachineRegister::Rsp);
    mach.regs[sp] = STACK_TOP;
    let mut pc = program.entry;
    let mut steps = 0;
    loop {
        assert!(steps < limit, "the program did not return");
        steps += 1;
        let op = program.ops[pc];
        pc += 1;
        match op {
            AsmOp::Bind(_) => {}
            AsmOp::Bytes(_) => panic!("ran into the constants"),
            AsmOp::Push(r) => {
                mach.regs[sp] -= 8;
                let v = mach.regs[reg_index(r)];
                let a = mach.regs[sp];
                write(&mut mach, a, 8, v);
            }
            AsmOp::Pop(r) => {
                let a = mach.regs[sp];
                mach.regs[reg_index(r)] = read(&mach, a, 8);
                mach.regs[sp] += 8;
            }
            AsmOp::MovRR { dest, src } => mach.regs[reg_index(dest)] = mach.regs[reg_index(src)],
            AsmOp::AddRR { dest, src } => {
                mach.regs[reg_index(dest)] =
                    mach.regs[reg_index(dest)].wrapping_add(mach.regs[reg_index(src)])
            }
            AsmOp::SubRR { dest, src } => {
                mach.regs[reg_index(dest)] =
                    mach.regs[reg_index(dest)].wrapping_sub(mach.regs[reg_index(src)])
            }
            AsmOp::Clear(r) => mach.regs[reg_index(r)] = 0,
            AsmOp::MovImm { dest, bits, value } => {
                let old = mach.regs[reg_index(dest)];
                mach.regs[reg_index(dest)] = match bits {
                    8 => (old & !0xff) | value,
                    16 => (old & !0xffff) | value,
                    _ => value,
                };
            }
            AsmOp::AddImm { dest, value } => {
                mach.regs[reg_index(dest)] = mach.regs[reg_index(dest)].wrapping_add(value as u64)
            }
            AsmOp::SubImm { dest, value } => {
                mach.regs[reg_index(dest)] = mach.regs[reg_index(dest)].wrapping_sub(value as u64)
            }
            AsmOp::LeaFrame { dest, below } => {
                mach.regs[reg_index(dest)] =
                    mach.regs[reg_index(MachineRegister::Rbp)].wrapping_sub(below as u64)
            }
            AsmOp::LeaLabel { dest, label } => match label {
                Label::Constant(c) => mach.regs[reg_index(dest)] = CONSTANT_BASE + c as u64,
                Label::Block(_) => panic!("address of a block"),
            },
            AsmOp::Store64 { ptr, src } => {
                let a = mach.regs[reg_index(ptr)];
                let v = mach.regs[reg_index(src)];
                write(&mut mach, a, 8, v);
            }
            AsmOp::Store32 { ptr, src } => {
                let a = mach.regs[reg_index(ptr)];
                let v = mach.regs[reg_index(src)];
                write(&mut mach, a, 4, v);
            }
            AsmOp::Store16 { ptr, src } => {
                let a = mach.regs[reg_index(ptr)];
                let v = mach.regs[reg_index(src)];
                write(&mut mach, a, 2, v);
            }
            AsmOp::Store8 { ptr, src } => {
                let a = mach.regs[reg_index(ptr)];
                let v = mach.regs[reg_index(src)];
                write(&mut mach, a, 1, v);
            }
            AsmOp::Load32 { dest, ptr } => {
                let a = mach.regs[reg_index(ptr)];
                mach.regs[reg_index(dest)] = read(&mach, a, 4);
            }
            AsmOp::CmpZero(r) => mach.zero = mach.regs[reg_index(r)] == 0,
            AsmOp::Jmp(l) => pc = find_label(program, l),
            AsmOp::Je(l) => {
                if mach.zero {
                    pc = find_label(program, l)
                }
            }
            AsmOp::Jne(l) => {
                if !mach.zero {
                    pc = find_label(program, l)
                }
            }
            AsmOp::MovHostPrint(r) => mach.regs[reg_index(r)] = HOST_PRINT,
            AsmOp::CallReg(r) => {
                assert_eq!(mach.regs[reg_index(r)], HOST_PRINT);
                let c = (mach.regs[reg_index(MachineRegister::Rdi)] - CONSTANT_BASE) as usize;
                let len = mach.regs[reg_index(MachineRegister::Rsi)] as usize;
                let bytes = ctx.get_constant(shiba_jit::ir::ConstantIndex::new(c)).unwrap();
                mach.out.extend_from_slice(&bytes[..len]);
            }
            AsmOp::Ret => return mach,
        }
    }
}

#[test]
fn hello_print_writes_the_constant() {
    let mut ctx = Context::new();
    let hi = ctx.add_constant(b"Hi\n");
    let entry = ctx.new_basic_block();
    let bb = ctx.build_basic_block(entry);
    bb.push_instruction(IR::PrintConstant { constant_ref: hi });
    bb.ret();
    bb.finish();
    assert!(ctx.finalize().is_ok());
    let program = generate_code(&ctx).unwrap();
    assert_eq!(program.entry, 2);
    assert_eq!(program.ops[0], AsmOp::Bind(Label::Constant(0)));
    assert_eq!(program.ops[1], AsmOp::Bytes(0));
    assert_eq!(program.ops[2], AsmOp::Push(MachineRegister::Rbp));
    assert_eq!(program.ops[8], AsmOp::Bind(Label::Block(0)));
    let mach = run_program(&ctx, &program, 1000);
    assert_eq!(mach.out, b"Hi\n".to_vec());
    assert_eq!(mach.regs[reg_index(MachineRegister::Rsp)], STACK_TOP);
}

#[test]
fn code_is_refused_before_finalize() {
    let mut ctx = Context::new();
    let entry = ctx.new_basic_block();
    ctx.build_basic_block(entry).ret();
    let err = generate_code(&ctx).unwrap_err();
    assert_eq!(err.reason(), CodeGenErrorReason::NotFinalized);
    assert_eq!(err.location(), (0, 0));
}

#[test]
fn arith_fold_leaves_zero() {
    let mut ctx = Context::new();
    let entry = ctx.new_basic_block();
    let bb = ctx.build_basic_block(entry);
    let r1 = bb.add(Value::u32(2), Value::u32(2));
    let r2 = bb.subtract(r1, Value::u32(4));
    bb.ret();
    assert!(ctx.finalize().is_ok());
    let program = generate_code(&ctx).unwrap();
    let gq = analyze(ctx.blocks()).unwrap();
    let regs = compute_register_map(ctx.blocks(), &gq).unwrap();
    let m1 = regs[1].unwrap();
    let m2 = regs[2].unwrap();
    assert_eq!(r1, Value::Register(shiba_jit::ir::RegisterIndex(1)));
    assert_eq!(r2, Value::Register(shiba_jit::ir::RegisterIndex(2)));
    assert_eq!(m1, MachineRegister::Rdx);
    assert_eq!(m2, MachineRegister::Rbx);
    // the folded addition is one move of 4
    assert!(program.ops.contains(&AsmOp::MovImm { dest: m1, bits: 32, value: 4 }));
    // cut the program before the epilogue and run it to there
    let cut = program.ops.len() - 7;
    assert_eq!(program.ops[cut], AsmOp::Pop(MachineRegister::Rsi));
    let mut body = Program { ops: program.ops[..cut].to_vec(), entry: program.entry };
    body.ops.push(AsmOp::Ret);
    let mach = run_program(&ctx, &body, 1000);
    assert_eq!(mach.regs[reg_index(m1)], 4);
    assert_eq!(mach.regs[reg_index(m2)], 0);
    assert!(mach.out.is_empty());
}

#[test]
fn counted_loop_prints_four_times() {
    let mut ctx = Context::new();
    let hello = ctx.add_constant(b"Hello\n");
    let goodbye = ctx.add_constant(b"Goodbye\n");
    let prog_start = ctx.new_basic_block();
    let loop_inner = ctx.new_basic_block();
    let loop_outer = ctx.new_basic_block();
    let loop_exit = ctx.new_basic_block();

    let start_bb = ctx.build_basic_block(prog_start);
    let counter = start_bb.alloca(PrimitiveValue::U32, 4);
    start_bb.store(counter, Value::u32(0));
    start_bb.jump(loop_inner);

    let inner_bb = ctx.build_basic_block(loop_inner);
    inner_bb.push_instruction(IR::PrintConstant { constant_ref: hello });
    let loaded = inner_bb.load(counter);
    let add_result = inner_bb.add(loaded, Value::u32(1));
    inner_bb.store(counter, add_result);
    let sub_result = inner_bb.subtract(Value::u32(4), add_result);
    inner_bb.finish();

    ctx.build_basic_block(loop_outer).add_parent(loop_inner).jump_if_equal(
        sub_result,
        loop_exit,
        loop_inner,
    );

    let exit_bb = ctx.build_basic_block(loop_exit);
    exit_bb.add_parent(loop_outer).push_instruction(IR::PrintConstant { constant_ref: goodbye });
    exit_bb.ret();
    exit_bb.finish();

    assert_eq!(ctx.finalize(), Ok(()));
    let program = generate_code(&ctx).unwrap();
    let mach = run_program(&ctx, &program, 10_000);
    assert_eq!(mach.out, b"Hello\nHello\nHello\nHello\nGoodbye\n".to_vec());
}

#[test]
fn dominance_violating_use_is_refused() {
    let mut ctx = Context::new();
    let entry = ctx.new_basic_block();
    let a = ctx.new_basic_block();
    let b = ctx.new_basic_block();
    let cond = ctx.build_basic_block(entry).add(Value::u32(1), Value::u32(0));
    ctx.build_basic_block(entry).jump_if_equal(cond, a, b);
    let in_a = ctx.build_basic_block(a).add(Value::u32(1), Value::u32(2));
    ctx.build_basic_block(a).ret();
    let bb = ctx.build_basic_block(b);
    bb.add(in_a, Value::u32(1));
    bb.ret();
    let err = ctx.finalize().unwrap_err();
    assert_eq!(err.reason(), CodeGenErrorReason::RegisterNotFound(2));
    assert_eq!(err.location(), (2, 0));
    assert!(!ctx.is_finalized());
}

#[test]
fn over_allocation_runs_out_of_registers() {
    let mut ctx = Context::new();
    let entry = ctx.new_basic_block();
    let bb = ctx.build_basic_block(entry);
    let mut v = bb.add(Value::u32(1), Value::u32(1));
    for _ in 0..10 {
        v = bb.add(v, Value::u32(1));
    }
    bb.ret();
    assert!(ctx.finalize().is_ok());
    let err = generate_code(&ctx).unwrap_err();
    assert_eq!(err.reason(), CodeGenErrorReason::OutOfRegisters);
    assert_eq!(err.location(), (0, 10));
}

#[test]
fn back_edge_detection_on_a_diamond() {
    let mut ctx = Context::new();
    let head = ctx.new_basic_block();
    let left = ctx.new_basic_block();
    let right = ctx.new_basic_block();
    let join = ctx.new_basic_block();
    let c = ctx.build_basic_block(head).add(Value::u32(0), Value::u32(0));
    ctx.build_basic_block(head).jump_if_equal(c, left, right);
    ctx.build_basic_block(left).jump(join);
    ctx.build_basic_block(right).jump(join);
    ctx.build_basic_block(join).jump(head);
    assert!(ctx.finalize().is_ok());
    let gd = compute_graph(ctx.blocks());
    assert_eq!(gd.depth_map, vec![Some(0), Some(1), Some(1), Some(2)]);
    let n = |i: usize| petgraph::graph::NodeIndex::<usize>::new(i);
    assert!(gd.graph.contains_edge(n(3), n(0)));
    assert!(!gd.reduced_graph.contains_edge(n(3), n(0)));
    assert!(gd.reduced_graph.contains_edge(n(0), n(1)));
    assert!(gd.reduced_graph.contains_edge(n(0), n(2)));
    assert!(gd.reduced_graph.contains_edge(n(1), n(3)));
    assert!(gd.reduced_graph.contains_edge(n(2), n(3)));
    assert_eq!(gd.reduced_graph.edge_count(), 4);
    let (reach, back) = gd.compute_reduced_reachability_and_back_edges();
    assert_eq!(back[3], vec![0]);
    assert_eq!(back[0], vec![0]);
    assert_eq!(reach[0], vec![true, true, true, true]);
    assert_eq!(reach[1], vec![false, true, false, true]);
    assert_eq!(reach[3], vec![false, false, false, true]);
    assert_eq!(head, BasicBlockIndex(0));
}
