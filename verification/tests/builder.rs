use shiba_jit::codegen::x86_64::{CodeGenError, CodeGenErrorReason};
use shiba_jit::ir::{
    BasicBlockIndex, BasicBlockManager, ConstantIndex, Context, PrimitiveValue, RegisterIndex,
    Value, IR,
};

#[test]
fn value_u32_is_an_immediate() {
    assert_eq!(
        Value::u32(7),
        Value::Immediate { _type: PrimitiveValue::U32, value: 7 }
    );
    assert_eq!(ConstantIndex::new(3), ConstantIndex(3));
}

#[test]
fn widths_of_the_primitive_types() {
    assert_eq!(PrimitiveValue::U8.width(), 8);
    assert_eq!(PrimitiveValue::I8.width(), 8);
    assert_eq!(PrimitiveValue::U16.width(), 16);
    assert_eq!(PrimitiveValue::I16.width(), 16);
    assert_eq!(PrimitiveValue::U32.width(), 32);
    assert_eq!(PrimitiveValue::I32.width(), 32);
    assert_eq!(PrimitiveValue::U64.width(), 64);
    assert_eq!(PrimitiveValue::I64.width(), 64);
}

#[test]
fn constants_keep_their_order() {
    let mut ctx = Context::new();
    assert_eq!(ctx.add_constant(b"a"), ConstantIndex(0));
    assert_eq!(ctx.add_constant(b"bc"), ConstantIndex(1));
    assert_eq!(ctx.constant_count(), 2);
    assert_eq!(ctx.get_constant(ConstantIndex(1)), Some(&b"bc".to_vec()));
    assert_eq!(ctx.get_constant(ConstantIndex(0)), Some(&b"a".to_vec()));
    assert_eq!(ctx.get_constant(ConstantIndex(2)), None);
}

#[test]
fn blocks_get_dense_indices() {
    let mut ctx = Context::new();
    assert_eq!(ctx.new_basic_block(), BasicBlockIndex(0));
    assert_eq!(ctx.new_basic_block(), BasicBlockIndex(1));
    assert_eq!(ctx.blocks().len(), 2);
    assert_eq!(ctx.blocks().start(), BasicBlockIndex(0));
    assert_eq!(ctx.blocks().get(BasicBlockIndex(1)).unwrap().index(), BasicBlockIndex(1));
    assert!(ctx.blocks().get(BasicBlockIndex(2)).is_none());
}

#[test]
fn registers_are_fresh_across_blocks() {
    let mut ctx = Context::new();
    let a = ctx.new_basic_block();
    let b = ctx.new_basic_block();
    let r1 = ctx.build_basic_block(a).add(Value::u32(1), Value::u32(2));
    let r2 = ctx.build_basic_block(b).subtract(r1, Value::u32(2));
    let r3 = ctx.build_basic_block(a).multiply(r1, r2);
    let r4 = ctx.build_basic_block(a).divide(r3, r2);
    let r5 = ctx.build_basic_block(b).alloca(PrimitiveValue::U32, 4);
    let r6 = ctx.build_basic_block(a).load(r5);
    assert_eq!(r1, Value::Register(RegisterIndex(1)));
    assert_eq!(r2, Value::Register(RegisterIndex(2)));
    assert_eq!(r3, Value::Register(RegisterIndex(3)));
    assert_eq!(r4, Value::Register(RegisterIndex(4)));
    assert_eq!(r5, Value::Register(RegisterIndex(5)));
    assert_eq!(r6, Value::Register(RegisterIndex(6)));
    assert_eq!(ctx.blocks().register_count(), 6);
    assert_eq!(ctx.build_basic_block(b).last_register(), 6);
    let code = ctx.blocks().get(a).unwrap().instructions().clone();
    assert_eq!(
        code,
        vec![
            IR::Add { dest_register: RegisterIndex(1), src1: Value::u32(1), src2: Value::u32(2) },
            IR::Multiply { dest_register: RegisterIndex(3), src1: r1, src2: r2 },
            IR::Divide { dest_register: RegisterIndex(4), src1: r3, src2: r2 },
            IR::Load { dest_register: r6, src_register: r5 },
        ]
    );
}

#[test]
fn instructions_of_the_builder() {
    let mut ctx = Context::new();
    let a = ctx.new_basic_block();
    let c = ctx.add_constant(b"x");
    let bb = ctx.build_basic_block(a);
    let p = bb.alloca(PrimitiveValue::I32, 4);
    bb.store(p, Value::u32(9));
    bb.print_constant(c);
    bb.ret();
    let code = ctx.blocks().get(a).unwrap().instructions().clone();
    assert_eq!(
        code,
        vec![
            IR::Alloca { dest_register: RegisterIndex(1), _type: PrimitiveValue::I32, alignment: 4 },
            IR::Store { dest_register: p, src_register: Value::u32(9) },
            IR::PrintConstant { constant_ref: c },
            IR::Return,
        ]
    );
    assert!(IR::Return.terminates());
    assert!(!code[0].terminates());
    assert_eq!(code[0].defines(), Some(1));
    assert_eq!(code[1].defines(), None);
    assert_eq!(code[1].reads(), vec![1]);
    assert_eq!(code[1].operands(), vec![p, Value::u32(9)]);
}

#[test]
fn a_jump_records_the_exit_at_once_and_the_parent_when_drained() {
    let mut ctx = Context::new();
    let a = ctx.new_basic_block();
    let b = ctx.new_basic_block();
    ctx.build_basic_block(a).jump(b);
    assert_eq!(ctx.blocks().get(a).unwrap().exits(), vec![1]);
    // the notice has not reached the target yet
    assert_eq!(ctx.blocks().get(b).unwrap().parents(), Vec::<usize>::new());
    // making a block drains the notices
    let c = ctx.new_basic_block();
    assert_eq!(ctx.blocks().get(b).unwrap().parents(), vec![0]);
    assert_eq!(ctx.blocks().get(c).unwrap().parents(), Vec::<usize>::new());
    let code = ctx.blocks().get(a).unwrap().instructions().clone();
    assert_eq!(code, vec![IR::Jump { bb_idx: b }]);
    assert_eq!(code[0].targets(), vec![1]);
}

#[test]
fn branches_record_both_exits() {
    let mut ctx = Context::new();
    let a = ctx.new_basic_block();
    let b = ctx.new_basic_block();
    let c = ctx.new_basic_block();
    let bb = ctx.build_basic_block(a);
    let v = bb.add(Value::u32(1), Value::u32(1));
    bb.jump_if_not_equal(v, b, c);
    assert_eq!(ctx.blocks().get(a).unwrap().exits(), vec![1, 2]);
    let code = ctx.blocks().get(a).unwrap().instructions().clone();
    assert_eq!(
        code[1],
        IR::JumpIfNotEqual { src_register: v, true_bb_idx: b, false_bb_idx: c }
    );
    ctx.build_basic_block(b).jump_if_equal(v, c, c);
    // an exit is recorded once
    assert_eq!(ctx.blocks().get(b).unwrap().exits(), vec![2]);
    ctx.build_basic_block(c).ret();
    assert_eq!(ctx.finalize(), Ok(()));
    assert_eq!(ctx.blocks().get(c).unwrap().parents(), vec![0, 1]);
    assert_eq!(ctx.blocks().get(b).unwrap().parents(), vec![0]);
}

#[test]
fn finalize_makes_the_edges_agree() {
    let mut ctx = Context::new();
    let a = ctx.new_basic_block();
    let b = ctx.new_basic_block();
    let c = ctx.new_basic_block();
    // declared from the target's side
    ctx.build_basic_block(b).add_parent(a).add_parent(a);
    // a jump pushed as a plain instruction records no exit
    ctx.build_basic_block(b).push_instruction(IR::Jump { bb_idx: c });
    ctx.build_basic_block(c).ret();
    assert_eq!(ctx.blocks().get(b).unwrap().parents(), vec![0]);
    assert_eq!(ctx.blocks().get(b).unwrap().exits(), Vec::<usize>::new());
    assert_eq!(ctx.finalize(), Ok(()));
    assert!(ctx.is_finalized());
    assert!(ctx.blocks().is_valid());
    assert_eq!(ctx.blocks().get(a).unwrap().exits(), vec![1]);
    assert_eq!(ctx.blocks().get(b).unwrap().exits(), vec![2]);
    assert_eq!(ctx.blocks().get(c).unwrap().parents(), vec![1]);
    for x in 0..3 {
        for y in 0..3 {
            let exit = ctx.blocks().get(BasicBlockIndex(x)).unwrap().exits().contains(&y);
            let parent = ctx.blocks().get(BasicBlockIndex(y)).unwrap().parents().contains(&x);
            assert_eq!(exit, parent);
        }
    }
}

#[test]
fn building_again_clears_the_finalized_mark() {
    let mut ctx = Context::new();
    let a = ctx.new_basic_block();
    ctx.build_basic_block(a).ret();
    assert!(!ctx.is_finalized());
    assert_eq!(ctx.finalize(), Ok(()));
    assert!(ctx.is_finalized());
    ctx.build_basic_block(a).finish();
    assert!(!ctx.is_finalized());
    assert_eq!(ctx.finalize(), Ok(()));
    ctx.add_constant(b"z");
    assert!(!ctx.is_finalized());
}

fn err(block: usize, instruction: usize, reason: CodeGenErrorReason) -> CodeGenError {
    CodeGenError { block, instruction, reason }
}

#[test]
fn an_edge_to_a_missing_block_is_refused() {
    let mut ctx = Context::new();
    let a = ctx.new_basic_block();
    ctx.build_basic_block(a).jump(BasicBlockIndex(5));
    assert_eq!(ctx.finalize(), Err(err(0, 0, CodeGenErrorReason::InvalidEdge(5))));
    assert!(!ctx.blocks().is_valid());

    let mut ctx = Context::new();
    let a = ctx.new_basic_block();
    let bb = ctx.build_basic_block(a);
    bb.print_constant(ConstantIndex(0));
    bb.push_instruction(IR::Jump { bb_idx: BasicBlockIndex(9) });
    assert_eq!(ctx.finalize(), Err(err(0, 1, CodeGenErrorReason::InvalidEdge(9))));

    let mut ctx = Context::new();
    let a = ctx.new_basic_block();
    ctx.build_basic_block(a).add_parent(BasicBlockIndex(3)).ret();
    assert_eq!(ctx.finalize(), Err(err(0, 0, CodeGenErrorReason::InvalidEdge(3))));
}

#[test]
fn a_program_without_blocks_has_no_entry() {
    let mut ctx = Context::new();
    assert_eq!(ctx.finalize(), Err(err(0, 0, CodeGenErrorReason::InvalidEdge(0))));
    let m = BasicBlockManager::new();
    assert!(!m.is_valid());
    assert_eq!(m.len(), 0);
}

#[test]
fn nothing_may_follow_a_terminator() {
    let mut ctx = Context::new();
    let a = ctx.new_basic_block();
    let bb = ctx.build_basic_block(a);
    bb.ret();
    bb.add(Value::u32(1), Value::u32(1));
    assert_eq!(ctx.finalize(), Err(err(0, 1, CodeGenErrorReason::MisplacedTerminator)));

    let mut ctx = Context::new();
    let a = ctx.new_basic_block();
    let b = ctx.new_basic_block();
    ctx.build_basic_block(a).jump(b);
    let bb = ctx.build_basic_block(b);
    bb.jump(a);
    bb.ret();
    assert_eq!(ctx.finalize(), Err(err(1, 1, CodeGenErrorReason::MisplacedTerminator)));
}

#[test]
fn a_register_is_defined_once() {
    let mut ctx = Context::new();
    let a = ctx.new_basic_block();
    let bb = ctx.build_basic_block(a);
    bb.add(Value::u32(1), Value::u32(1));
    bb.push_instruction(IR::Add {
        dest_register: RegisterIndex(1),
        src1: Value::u32(1),
        src2: Value::u32(1),
    });
    bb.ret();
    assert_eq!(ctx.finalize(), Err(err(0, 1, CodeGenErrorReason::RegisterValueTaken(1))));
}

#[test]
fn a_register_of_another_context_is_not_found() {
    let mut ctx = Context::new();
    let a = ctx.new_basic_block();
    let bb = ctx.build_basic_block(a);
    bb.add(Value::Register(RegisterIndex(7)), Value::u32(1));
    bb.ret();
    assert_eq!(ctx.finalize(), Err(err(0, 0, CodeGenErrorReason::RegisterNotFound(7))));

    let mut ctx = Context::new();
    let a = ctx.new_basic_block();
    let bb = ctx.build_basic_block(a);
    bb.push_instruction(IR::Alloca {
        dest_register: RegisterIndex(4),
        _type: PrimitiveValue::U32,
        alignment: 4,
    });
    bb.ret();
    assert_eq!(ctx.finalize(), Err(err(0, 0, CodeGenErrorReason::RegisterNotFound(4))));
}

#[test]
fn a_read_before_the_definition_is_refused() {
    let mut ctx = Context::new();
    let a = ctx.new_basic_block();
    let bb = ctx.build_basic_block(a);
    bb.store(Value::Register(RegisterIndex(1)), Value::u32(0));
    bb.alloca(PrimitiveValue::U32, 4);
    bb.ret();
    assert_eq!(ctx.finalize(), Err(err(0, 0, CodeGenErrorReason::RegisterNotFound(1))));
}

#[test]
fn a_branch_target_out_of_reach_is_refused() {
    // c cannot be reached and jumps to d: d is the target of an edge
    let mut ctx = Context::new();
    let a = ctx.new_basic_block();
    let c = ctx.new_basic_block();
    let d = ctx.new_basic_block();
    ctx.build_basic_block(a).ret();
    ctx.build_basic_block(c).jump(d);
    ctx.build_basic_block(d).ret();
    assert_eq!(ctx.finalize(), Err(err(2, 0, CodeGenErrorReason::UnreachableBlock(2))));

    // a block that is its own only predecessor
    let mut ctx = Context::new();
    let a = ctx.new_basic_block();
    let b = ctx.new_basic_block();
    ctx.build_basic_block(a).ret();
    ctx.build_basic_block(b).jump(b);
    assert_eq!(ctx.finalize(), Err(err(1, 0, CodeGenErrorReason::UnreachableBlock(1))));
}

#[test]
fn a_block_that_nothing_leads_to_is_accepted() {
    let mut ctx = Context::new();
    let a = ctx.new_basic_block();
    let b = ctx.new_basic_block();
    ctx.build_basic_block(a).ret();
    ctx.build_basic_block(b).ret();
    assert_eq!(ctx.finalize(), Ok(()));
    let program = shiba_jit::codegen::x86_64::generate_code(&ctx).unwrap();
    assert_eq!(program.ops.len(), 6 + 2 * 8);
}

#[test]
fn operands_of_different_width_are_refused() {
    let mut ctx = Context::new();
    let a = ctx.new_basic_block();
    let bb = ctx.build_basic_block(a);
    let x = bb.add(Value::u32(1), Value::u32(1));
    bb.add(x, Value::Immediate { _type: PrimitiveValue::U8, value: 1 });
    bb.ret();
    assert_eq!(
        ctx.finalize(),
        Err(err(0, 1, CodeGenErrorReason::TypeMismatch(PrimitiveValue::U32, PrimitiveValue::U8)))
    );

    // signedness does not count, and a load has the type of what it reads through
    let mut ctx = Context::new();
    let a = ctx.new_basic_block();
    let bb = ctx.build_basic_block(a);
    let p = bb.alloca(PrimitiveValue::U16, 2);
    let v = bb.load(p);
    bb.add(v, Value::Immediate { _type: PrimitiveValue::I16, value: 1 });
    bb.subtract(v, Value::Immediate { _type: PrimitiveValue::I64, value: 1 });
    bb.ret();
    assert_eq!(
        ctx.finalize(),
        Err(err(0, 3, CodeGenErrorReason::TypeMismatch(PrimitiveValue::U16, PrimitiveValue::I64)))
    );
}

#[test]
fn a_self_loop_on_the_entry_is_a_valid_loop_head() {
    let mut ctx = Context::new();
    let a = ctx.new_basic_block();
    let bb = ctx.build_basic_block(a);
    let v = bb.add(Value::u32(1), Value::u32(1));
    let w = bb.add(v, Value::u32(1));
    bb.jump_if_equal(w, a, a);
    assert_eq!(ctx.finalize(), Ok(()));
    assert_eq!(ctx.blocks().get(a).unwrap().exits(), vec![0]);
    assert_eq!(ctx.blocks().get(a).unwrap().parents(), vec![0]);
}
