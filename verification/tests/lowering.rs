use shiba_jit::codegen::x86_64::{
    analyze, compute_register_map, emit_mov_imm, emit_program, fold_constants, generate_code,
    generate_code_with, lookup, lower_instruction, new_pool, set_up_constants,
    truncate_immediate, AsmOp, CodeGenErrorReason, Label, MachineRegister,
};
use shiba_jit::ir::{
    BasicBlockIndex, ConstantIndex, Context, PrimitiveValue, RegisterIndex, Value, IR,
};

use MachineRegister::{Rax, Rbx, Rdx, R8};

fn regs() -> Vec<Option<MachineRegister>> {
    vec![None, Some(Rdx), Some(Rbx), Some(R8)]
}

fn r(i: usize) -> Value {
    Value::Register(RegisterIndex(i))
}

fn imm(t: PrimitiveValue, value: usize) -> Value {
    Value::Immediate { _type: t, value }
}

fn lower(inst: IR) -> Result<Vec<AsmOp>, CodeGenErrorReason> {
    let mut ctx = Context::new();
    ctx.add_constant(b"Hi\n");
    ctx.add_constant(&[7u8; 255]);
    ctx.add_constant(&[7u8; 256]);
    lower_instruction(&ctx, &inst, &regs(), &types())
}

/// The types of the registers: the first is a 32-bit value, the second a 16-bit
/// value, the third is not known.
fn types() -> Vec<Option<PrimitiveValue>> {
    vec![None, Some(PrimitiveValue::U32), Some(PrimitiveValue::I16), None]
}

#[test]
fn register_encodings() {
    let all = [
        MachineRegister::Rax,
        MachineRegister::Rcx,
        MachineRegister::Rdx,
        MachineRegister::Rbx,
        MachineRegister::Rsp,
        MachineRegister::Rbp,
        MachineRegister::Rsi,
        MachineRegister::Rdi,
        MachineRegister::R8,
        MachineRegister::R9,
        MachineRegister::R10,
        MachineRegister::R11,
        MachineRegister::R12,
        MachineRegister::R13,
        MachineRegister::R14,
        MachineRegister::R15,
    ];
    for (i, m) in all.iter().enumerate() {
        assert_eq!(m.encoding() as usize, i);
    }
}

#[test]
fn the_pool_has_ten_registers() {
    let pool: Vec<MachineRegister> = new_pool().into_iter().collect();
    assert_eq!(
        pool,
        vec![
            MachineRegister::Rdx,
            MachineRegister::Rbx,
            MachineRegister::R8,
            MachineRegister::R9,
            MachineRegister::R10,
            MachineRegister::R11,
            MachineRegister::R12,
            MachineRegister::R13,
            MachineRegister::R14,
            MachineRegister::R15,
        ]
    );
}

#[test]
fn ten_definitions_fit_and_eleven_do_not() {
    for n in [10usize, 11] {
        let mut ctx = Context::new();
        let a = ctx.new_basic_block();
        let bb = ctx.build_basic_block(a);
        for _ in 0..n {
            bb.add(Value::u32(1), Value::u32(1));
        }
        bb.ret();
        assert_eq!(ctx.finalize(), Ok(()));
        let gq = analyze(ctx.blocks()).unwrap();
        let map = compute_register_map(ctx.blocks(), &gq);
        if n == 10 {
            let map = map.unwrap();
            assert_eq!(map.len(), 11);
            assert_eq!(map[0], None);
            assert_eq!(map[1], Some(MachineRegister::Rdx));
            assert_eq!(map[2], Some(MachineRegister::Rbx));
            assert_eq!(map[3], Some(MachineRegister::R8));
            assert_eq!(map[10], Some(MachineRegister::R15));
            assert!(generate_code_with(&ctx, &gq).is_ok());
        } else {
            let e = map.unwrap_err();
            assert_eq!(e.reason(), CodeGenErrorReason::OutOfRegisters);
            assert_eq!(e.location(), (0, 10));
            assert_eq!(
                generate_code_with(&ctx, &gq).unwrap_err().reason(),
                CodeGenErrorReason::OutOfRegisters
            );
        }
    }
}

#[test]
fn released_registers_go_to_the_back_of_the_pool() {
    // a defines r1 (read in b) and r2 (read nowhere else); b defines r3
    let mut ctx = Context::new();
    let a = ctx.new_basic_block();
    let b = ctx.new_basic_block();
    let bb = ctx.build_basic_block(a);
    let r1 = bb.add(Value::u32(1), Value::u32(1));
    bb.add(Value::u32(1), Value::u32(1));
    bb.jump(b);
    let bb = ctx.build_basic_block(b);
    bb.add(r1, Value::u32(1));
    bb.ret();
    assert_eq!(ctx.finalize(), Ok(()));
    let gq = analyze(ctx.blocks()).unwrap();
    let map = compute_register_map(ctx.blocks(), &gq).unwrap();
    // rbx was released at the exit of a and waits behind r8..r15
    assert_eq!(
        map,
        vec![None, Some(MachineRegister::Rdx), Some(MachineRegister::Rbx), Some(MachineRegister::R8)]
    );
}

#[test]
fn truncation_of_immediates() {
    assert_eq!(truncate_immediate(PrimitiveValue::U8, 0x1ff), 0xff);
    assert_eq!(truncate_immediate(PrimitiveValue::I8, 0x100), 0);
    assert_eq!(truncate_immediate(PrimitiveValue::U16, 0x12345), 0x2345);
    assert_eq!(truncate_immediate(PrimitiveValue::I32, 0x1_0000_0007), 7);
    assert_eq!(truncate_immediate(PrimitiveValue::U64, 0x1_0000_0000_0000_0005), 5);
    assert_eq!(truncate_immediate(PrimitiveValue::I64, u64::MAX as u128), u64::MAX);
}

#[test]
fn folding_of_constants() {
    assert_eq!(fold_constants(true, PrimitiveValue::U32, 2, 2), 4);
    assert_eq!(fold_constants(false, PrimitiveValue::U32, 4, 4), 0);
    assert_eq!(fold_constants(false, PrimitiveValue::U32, 0, 1), 0xffff_ffff);
    assert_eq!(fold_constants(false, PrimitiveValue::U8, 3, 5), 0xfe);
    assert_eq!(fold_constants(true, PrimitiveValue::U8, 200, 100), 44);
    assert_eq!(fold_constants(true, PrimitiveValue::U64, usize::MAX, 2), 1);
    assert_eq!(fold_constants(false, PrimitiveValue::I64, 0, 1), u64::MAX);
}

#[test]
fn the_immediate_move_clears_up_to_32_bits() {
    let mut ops = vec![AsmOp::Ret];
    emit_mov_imm(&mut ops, Rdx, 5, PrimitiveValue::U8);
    emit_mov_imm(&mut ops, Rbx, 6, PrimitiveValue::I16);
    emit_mov_imm(&mut ops, R8, 7, PrimitiveValue::U32);
    emit_mov_imm(&mut ops, Rax, 8, PrimitiveValue::I64);
    assert_eq!(
        ops,
        vec![
            AsmOp::Ret,
            AsmOp::Clear(Rdx),
            AsmOp::MovImm { dest: Rdx, bits: 8, value: 5 },
            AsmOp::Clear(Rbx),
            AsmOp::MovImm { dest: Rbx, bits: 16, value: 6 },
            AsmOp::Clear(R8),
            AsmOp::MovImm { dest: R8, bits: 32, value: 7 },
            AsmOp::MovImm { dest: Rax, bits: 64, value: 8 },
        ]
    );
}

#[test]
fn lookup_of_machine_registers() {
    assert_eq!(lookup(&regs(), RegisterIndex(1)), Some(Rdx));
    assert_eq!(lookup(&regs(), RegisterIndex(0)), None);
    assert_eq!(lookup(&regs(), RegisterIndex(4)), None);
}

#[test]
fn lowering_of_addition() {
    let u32t = PrimitiveValue::U32;
    assert_eq!(
        lower(IR::Add { dest_register: RegisterIndex(3), src1: r(1), src2: r(2) }),
        Ok(vec![AsmOp::MovRR { dest: R8, src: Rdx }, AsmOp::AddRR { dest: R8, src: Rbx }])
    );
    let with_imm = Ok(vec![
        AsmOp::Clear(R8),
        AsmOp::MovImm { dest: R8, bits: 32, value: 9 },
        AsmOp::AddRR { dest: R8, src: Rdx },
    ]);
    assert_eq!(
        lower(IR::Add { dest_register: RegisterIndex(3), src1: r(1), src2: imm(u32t, 9) }),
        with_imm
    );
    assert_eq!(
        lower(IR::Add { dest_register: RegisterIndex(3), src1: imm(u32t, 9), src2: r(1) }),
        with_imm
    );
    assert_eq!(
        lower(IR::Add { dest_register: RegisterIndex(3), src1: imm(u32t, 2), src2: imm(u32t, 2) }),
        Ok(vec![AsmOp::Clear(R8), AsmOp::MovImm { dest: R8, bits: 32, value: 4 }])
    );
    assert_eq!(
        lower(IR::Add {
            dest_register: RegisterIndex(3),
            src1: imm(PrimitiveValue::U64, 1),
            src2: imm(PrimitiveValue::U64, 2)
        }),
        Ok(vec![AsmOp::MovImm { dest: R8, bits: 64, value: 3 }])
    );
}

#[test]
fn lowering_of_subtraction() {
    let u32t = PrimitiveValue::U32;
    assert_eq!(
        lower(IR::Subtract { dest_register: RegisterIndex(3), src1: r(1), src2: r(2) }),
        Ok(vec![AsmOp::MovRR { dest: R8, src: Rdx }, AsmOp::SubRR { dest: R8, src: Rbx }])
    );
    assert_eq!(
        lower(IR::Subtract { dest_register: RegisterIndex(3), src1: imm(u32t, 4), src2: r(1) }),
        Ok(vec![
            AsmOp::Clear(R8),
            AsmOp::MovImm { dest: R8, bits: 32, value: 4 },
            AsmOp::SubRR { dest: R8, src: Rdx },
        ])
    );
    // register minus immediate goes through rax
    assert_eq!(
        lower(IR::Subtract { dest_register: RegisterIndex(3), src1: r(1), src2: imm(u32t, 4) }),
        Ok(vec![
            AsmOp::Clear(Rax),
            AsmOp::MovImm { dest: Rax, bits: 32, value: 4 },
            AsmOp::MovRR { dest: R8, src: Rdx },
            AsmOp::SubRR { dest: R8, src: Rax },
        ])
    );
    assert_eq!(
        lower(IR::Subtract {
            dest_register: RegisterIndex(3),
            src1: imm(u32t, 1),
            src2: imm(u32t, 2)
        }),
        Ok(vec![AsmOp::Clear(R8), AsmOp::MovImm { dest: R8, bits: 32, value: 0xffff_ffff }])
    );
}

#[test]
fn lowering_of_memory_instructions() {
    assert_eq!(
        lower(IR::Alloca { dest_register: RegisterIndex(1), _type: PrimitiveValue::U32, alignment: 4 }),
        Ok(vec![AsmOp::LeaFrame { dest: Rdx, below: 4 }])
    );
    assert_eq!(
        lower(IR::Alloca { dest_register: RegisterIndex(1), _type: PrimitiveValue::I32, alignment: 4 }),
        Ok(vec![AsmOp::LeaFrame { dest: Rdx, below: 4 }])
    );
    assert_eq!(
        lower(IR::Alloca { dest_register: RegisterIndex(1), _type: PrimitiveValue::U64, alignment: 8 }),
        Err(CodeGenErrorReason::Unsupported)
    );
    // a store is as wide as the value; 64 bits wide where the type is not known
    assert_eq!(
        lower(IR::Store { dest_register: r(2), src_register: r(1) }),
        Ok(vec![AsmOp::Store32 { ptr: Rbx, src: Rdx }])
    );
    assert_eq!(
        lower(IR::Store { dest_register: r(1), src_register: r(2) }),
        Ok(vec![AsmOp::Store16 { ptr: Rdx, src: Rbx }])
    );
    assert_eq!(
        lower(IR::Store { dest_register: r(1), src_register: r(3) }),
        Ok(vec![AsmOp::Store64 { ptr: Rdx, src: R8 }])
    );
    assert_eq!(
        lower(IR::Store { dest_register: r(1), src_register: Value::u32(5) }),
        Ok(vec![
            AsmOp::MovImm { dest: Rax, bits: 32, value: 5 },
            AsmOp::Store32 { ptr: Rdx, src: Rax },
        ])
    );
    assert_eq!(
        lower(IR::Store { dest_register: r(1), src_register: imm(PrimitiveValue::I32, 5) }),
        Err(CodeGenErrorReason::Unsupported)
    );
    assert_eq!(
        lower(IR::Store { dest_register: Value::u32(1), src_register: r(1) }),
        Err(CodeGenErrorReason::Unsupported)
    );
    assert_eq!(
        lower(IR::Load { dest_register: r(2), src_register: r(1) }),
        Ok(vec![AsmOp::Load32 { dest: Rbx, ptr: Rdx }])
    );
    assert_eq!(
        lower(IR::Load { dest_register: r(2), src_register: Value::u32(64) }),
        Err(CodeGenErrorReason::Unsupported)
    );
}

#[test]
fn lowering_of_jumps() {
    let (t, f) = (BasicBlockIndex(4), BasicBlockIndex(6));
    assert_eq!(lower(IR::Jump { bb_idx: t }), Ok(vec![AsmOp::Jmp(Label::Block(4))]));
    assert_eq!(
        lower(IR::JumpIfEqual { src_register: r(2), true_bb_idx: t, false_bb_idx: f }),
        Ok(vec![AsmOp::CmpZero(Rbx), AsmOp::Je(Label::Block(4)), AsmOp::Jmp(Label::Block(6))])
    );
    assert_eq!(
        lower(IR::JumpIfNotEqual { src_register: r(2), true_bb_idx: t, false_bb_idx: f }),
        Ok(vec![AsmOp::CmpZero(Rbx), AsmOp::Jne(Label::Block(4)), AsmOp::Jmp(Label::Block(6))])
    );
}

#[test]
fn a_branch_on_an_immediate_is_decided_at_once() {
    let (t, f) = (BasicBlockIndex(4), BasicBlockIndex(6));
    let eq = |v: Value| lower(IR::JumpIfEqual { src_register: v, true_bb_idx: t, false_bb_idx: f });
    let ne =
        |v: Value| lower(IR::JumpIfNotEqual { src_register: v, true_bb_idx: t, false_bb_idx: f });
    assert_eq!(eq(Value::u32(0)), Ok(vec![AsmOp::Jmp(Label::Block(4))]));
    assert_eq!(eq(Value::u32(3)), Ok(vec![AsmOp::Jmp(Label::Block(6))]));
    assert_eq!(ne(Value::u32(0)), Ok(vec![AsmOp::Jmp(Label::Block(6))]));
    assert_eq!(ne(Value::u32(3)), Ok(vec![AsmOp::Jmp(Label::Block(4))]));
    // the payload counts at the width of the immediate
    assert_eq!(eq(imm(PrimitiveValue::U8, 0x100)), Ok(vec![AsmOp::Jmp(Label::Block(4))]));
}

#[test]
fn lowering_of_print_and_return() {
    let ops = lower(IR::PrintConstant { constant_ref: ConstantIndex(0) }).unwrap();
    let saved = [
        MachineRegister::Rax,
        MachineRegister::Rcx,
        MachineRegister::Rdx,
        MachineRegister::Rsi,
        MachineRegister::Rdi,
        MachineRegister::R8,
        MachineRegister::R9,
        MachineRegister::R10,
        MachineRegister::R11,
    ];
    let mut want: Vec<AsmOp> = saved.iter().map(|m| AsmOp::Push(*m)).collect();
    want.push(AsmOp::LeaLabel { dest: MachineRegister::Rdi, label: Label::Constant(0) });
    want.push(AsmOp::Clear(MachineRegister::Rsi));
    want.push(AsmOp::MovImm { dest: MachineRegister::Rsi, bits: 8, value: 3 });
    want.push(AsmOp::MovHostPrint(MachineRegister::Rax));
    want.push(AsmOp::CallReg(MachineRegister::Rax));
    want.extend(saved.iter().rev().map(|m| AsmOp::Pop(*m)));
    assert_eq!(ops, want);
    assert_eq!(
        lower(IR::Return),
        Ok(vec![
            AsmOp::Pop(MachineRegister::Rsi),
            AsmOp::Pop(MachineRegister::Rdi),
            AsmOp::Pop(MachineRegister::Rbx),
            AsmOp::AddImm { dest: MachineRegister::Rsp, value: 8 },
            AsmOp::MovRR { dest: MachineRegister::Rsp, src: MachineRegister::Rbp },
            AsmOp::Pop(MachineRegister::Rbp),
            AsmOp::Ret,
        ])
    );
}

#[test]
fn a_constant_of_256_bytes_is_refused() {
    let ok = lower(IR::PrintConstant { constant_ref: ConstantIndex(1) }).unwrap();
    assert!(ok.contains(&AsmOp::MovImm { dest: MachineRegister::Rsi, bits: 8, value: 255 }));
    assert_eq!(
        lower(IR::PrintConstant { constant_ref: ConstantIndex(2) }),
        Err(CodeGenErrorReason::ConstantTooLong(2))
    );
    assert_eq!(
        lower(IR::PrintConstant { constant_ref: ConstantIndex(3) }),
        Err(CodeGenErrorReason::ConstantNotFound(3))
    );
}

#[test]
fn instructions_without_a_lowering() {
    assert_eq!(
        lower(IR::Multiply { dest_register: RegisterIndex(3), src1: r(1), src2: r(2) }),
        Err(CodeGenErrorReason::Unsupported)
    );
    assert_eq!(
        lower(IR::Divide { dest_register: RegisterIndex(3), src1: r(1), src2: r(2) }),
        Err(CodeGenErrorReason::Unsupported)
    );
}

#[test]
fn a_register_without_a_machine_register() {
    assert_eq!(
        lower(IR::Add { dest_register: RegisterIndex(9), src1: r(1), src2: r(2) }),
        Err(CodeGenErrorReason::RegisterNotFound(9))
    );
    assert_eq!(
        lower(IR::Add { dest_register: RegisterIndex(3), src1: r(0), src2: r(8) }),
        Err(CodeGenErrorReason::RegisterNotFound(0))
    );
    assert_eq!(
        lower(IR::Subtract { dest_register: RegisterIndex(3), src1: r(1), src2: r(8) }),
        Err(CodeGenErrorReason::RegisterNotFound(8))
    );
    assert_eq!(
        lower(IR::JumpIfEqual {
            src_register: r(5),
            true_bb_idx: BasicBlockIndex(0),
            false_bb_idx: BasicBlockIndex(0)
        }),
        Err(CodeGenErrorReason::RegisterNotFound(5))
    );
}

#[test]
fn the_constants_come_first_then_the_prologue_then_the_blocks() {
    let mut ctx = Context::new();
    ctx.add_constant(b"a");
    ctx.add_constant(b"b");
    let a = ctx.new_basic_block();
    let b = ctx.new_basic_block();
    ctx.build_basic_block(a).jump(b);
    ctx.build_basic_block(b).ret();
    assert_eq!(ctx.finalize(), Ok(()));
    let mut section = Vec::new();
    set_up_constants(&ctx, &mut section);
    assert_eq!(
        section,
        vec![
            AsmOp::Bind(Label::Constant(0)),
            AsmOp::Bytes(0),
            AsmOp::Bind(Label::Constant(1)),
            AsmOp::Bytes(1),
        ]
    );
    let program = generate_code(&ctx).unwrap();
    assert_eq!(program.entry, 4);
    assert_eq!(program.ops[..4], section[..]);
    assert_eq!(
        program.ops[4..12],
        [
            AsmOp::Push(MachineRegister::Rbp),
            AsmOp::MovRR { dest: MachineRegister::Rbp, src: MachineRegister::Rsp },
            AsmOp::SubImm { dest: MachineRegister::Rsp, value: 8 },
            AsmOp::Push(MachineRegister::Rbx),
            AsmOp::Push(MachineRegister::Rdi),
            AsmOp::Push(MachineRegister::Rsi),
            AsmOp::Bind(Label::Block(0)),
            AsmOp::Jmp(Label::Block(1)),
        ]
    );
    assert_eq!(program.ops[12], AsmOp::Bind(Label::Block(1)));
    assert_eq!(program.ops.len(), 20);
    let again = emit_program(&ctx, &vec![None]).unwrap();
    assert_eq!(again.ops, program.ops);
}

#[test]
fn an_instruction_without_a_lowering_is_located() {
    let mut ctx = Context::new();
    let a = ctx.new_basic_block();
    let b = ctx.new_basic_block();
    ctx.build_basic_block(a).jump(b);
    let bb = ctx.build_basic_block(b);
    let x = bb.add(Value::u32(1), Value::u32(2));
    bb.multiply(x, x);
    bb.ret();
    assert_eq!(ctx.finalize(), Ok(()));
    let e = generate_code(&ctx).unwrap_err();
    assert_eq!(e.reason(), CodeGenErrorReason::Unsupported);
    assert_eq!(e.location(), (1, 1));
}

#[test]
fn values_that_are_live_at_once_get_different_registers() {
    // r1 and r2 are read in the second block, r3 is defined there
    let mut ctx = Context::new();
    let a = ctx.new_basic_block();
    let b = ctx.new_basic_block();
    let bb = ctx.build_basic_block(a);
    let r1 = bb.add(Value::u32(1), Value::u32(1));
    let r2 = bb.add(Value::u32(2), Value::u32(2));
    bb.jump(b);
    let bb = ctx.build_basic_block(b);
    bb.add(r1, r2);
    bb.ret();
    assert_eq!(ctx.finalize(), Ok(()));
    let gq = analyze(ctx.blocks()).unwrap();
    let map = compute_register_map(ctx.blocks(), &gq).unwrap();
    let assigned: Vec<MachineRegister> = map.iter().flatten().copied().collect();
    assert_eq!(assigned.len(), 3);
    for i in 0..assigned.len() {
        for j in 0..i {
            assert_ne!(assigned[i], assigned[j]);
        }
    }
    assert_eq!(map[1], Some(MachineRegister::Rdx));
    assert_eq!(map[2], Some(MachineRegister::Rbx));
    assert_eq!(map[3], Some(MachineRegister::R8));
}

#[test]
fn the_immediate_move_cuts_the_immediate() {
    let mut ops = Vec::new();
    emit_mov_imm(&mut ops, Rdx, 0x1_0000_0005, PrimitiveValue::U32);
    emit_mov_imm(&mut ops, Rbx, 0x1ff, PrimitiveValue::U8);
    emit_mov_imm(&mut ops, R8, 0x12345, PrimitiveValue::I16);
    emit_mov_imm(&mut ops, Rax, u64::MAX, PrimitiveValue::U64);
    assert_eq!(
        ops,
        vec![
            AsmOp::Clear(Rdx),
            AsmOp::MovImm { dest: Rdx, bits: 32, value: 5 },
            AsmOp::Clear(Rbx),
            AsmOp::MovImm { dest: Rbx, bits: 8, value: 0xff },
            AsmOp::Clear(R8),
            AsmOp::MovImm { dest: R8, bits: 16, value: 0x2345 },
            AsmOp::MovImm { dest: Rax, bits: 64, value: u64::MAX },
        ]
    );
}

#[test]
fn a_value_passed_through_a_block_keeps_its_register_there() {
    // a defines r1 and jumps to b; b defines ten registers and jumps to c; c
    // reads r1: with r1 held in b, the tenth definition finds the pool empty
    let mut ctx = Context::new();
    let a = ctx.new_basic_block();
    let b = ctx.new_basic_block();
    let c = ctx.new_basic_block();
    let r1 = ctx.build_basic_block(a).alloca(PrimitiveValue::U32, 4);
    ctx.build_basic_block(a).jump(b);
    let bb = ctx.build_basic_block(b);
    let mut last = bb.add(Value::u32(1), Value::u32(1));
    for _ in 0..9 {
        last = bb.add(Value::u32(1), Value::u32(1));
    }
    bb.jump(c);
    let bb = ctx.build_basic_block(c);
    bb.store(r1, last);
    bb.ret();
    assert_eq!(ctx.finalize(), Ok(()));
    let gq = analyze(ctx.blocks()).unwrap();
    let e = compute_register_map(ctx.blocks(), &gq).unwrap_err();
    assert_eq!(e.reason(), CodeGenErrorReason::OutOfRegisters);
    assert_eq!(e.location(), (1, 9));
}

#[test]
fn a_value_that_is_not_live_out_of_a_block_gives_its_register_back() {
    // a defines r1 and jumps to b; b only jumps to c; c defines ten registers
    // and reads r1. No loop head lies around a, so r1 is not live on exit from
    // b and its register goes back to the pool there.
    let mut ctx = Context::new();
    let a = ctx.new_basic_block();
    let b = ctx.new_basic_block();
    let c = ctx.new_basic_block();
    let r1 = ctx.build_basic_block(a).alloca(PrimitiveValue::U32, 4);
    ctx.build_basic_block(a).jump(b);
    ctx.build_basic_block(b).jump(c);
    let bb = ctx.build_basic_block(c);
    let mut last = bb.add(Value::u32(1), Value::u32(1));
    for _ in 0..9 {
        last = bb.add(Value::u32(1), Value::u32(1));
    }
    bb.store(r1, last);
    bb.ret();
    assert_eq!(ctx.finalize(), Ok(()));
    let gq = analyze(ctx.blocks()).unwrap();
    assert!(gq.is_live_in(RegisterIndex(1), b));
    assert!(!gq.is_live_out(RegisterIndex(1), b));
    assert!(gq.is_live_in(RegisterIndex(1), c));
    let map = compute_register_map(ctx.blocks(), &gq).unwrap();
    assert_eq!(map[1], Some(MachineRegister::Rdx));
    assert_eq!(map[2], Some(MachineRegister::Rbx));
    assert_eq!(map[11], Some(MachineRegister::Rdx));
}

#[test]
fn every_assigned_register_is_one_of_the_pool() {
    let mut ctx = Context::new();
    let a = ctx.new_basic_block();
    let b = ctx.new_basic_block();
    let bb = ctx.build_basic_block(a);
    for _ in 0..7 {
        bb.add(Value::u32(1), Value::u32(1));
    }
    bb.jump(b);
    let bb = ctx.build_basic_block(b);
    for _ in 0..7 {
        bb.add(Value::u32(1), Value::u32(1));
    }
    bb.ret();
    assert_eq!(ctx.finalize(), Ok(()));
    let gq = analyze(ctx.blocks()).unwrap();
    let map = compute_register_map(ctx.blocks(), &gq).unwrap();
    let pool: Vec<MachineRegister> = new_pool().into_iter().collect();
    // the registers defined in the blocks that can be reached have a machine register
    assert_eq!(map.len(), 15);
    assert_eq!(map[0], None);
    for v in 1..15 {
        assert!(pool.contains(&map[v].unwrap()));
    }
}
