//! Lowering of the intermediate representation to x86-64 machine operations.

use crate::ir::{
    block_edges_in_range, defined_register, edges_in_range, first_invalid_edge,
    lemma_edges_in_range, BasicBlockIndex, BasicBlockManager, BlockView, Context, ContextView,
    ManagerView, PrimitiveValue, RegisterIndex, Value, IR,
};
use crate::reg_alloc::{compute_graph, first_register_fault, GraphQuery};
use crate::ir::finalize_outcome;
use crate::validate::{
    analyses, first_violation, lemma_analyses_agree, program_error, record_type, type_of_value,
    types_after, value_type, well_formed,
};
use std::collections::VecDeque;
use vstd::prelude::*;

verus! {

/// Where the value of a register comes from.
#[derive(Debug, Clone)]
pub enum RegisterValueLocation {
    Constant(usize),
    DependsOn(Vec<usize>),
    Memory(usize),
}

/// A point at which a machine register is taken or given back.
#[derive(Debug, PartialEq, Eq, Hash)]
pub enum RegisterEvent {
    Acquire(usize),
    Release(usize),
}

/// Why compilation failed.
#[derive(Debug, Clone, Copy, PartialEq, Eq, Structural)]
pub enum CodeGenErrorReason {
    /// A virtual register is defined a second time.
    RegisterValueTaken(usize),
    /// A virtual register is read where no definition of it reaches, or it was
    /// never handed out by this context.
    RegisterNotFound(usize),
    /// The operands of an arithmetic instruction differ in width.
    TypeMismatch(PrimitiveValue, PrimitiveValue),
    /// The assembler could not produce the executable buffer.
    CodeGenFailure,
    /// An edge or a jump names a block that does not exist.
    InvalidEdge(usize),
    /// A control-flow terminator is followed by another instruction.
    MisplacedTerminator,
    /// A block cannot be reached from the entry block.
    UnreachableBlock(usize),
    /// More values are live at once than there are allocatable machine registers.
    OutOfRegisters,
    /// The instruction, or its combination of operands, has no lowering.
    Unsupported,
    /// The context has not been finalized, or was changed since.
    NotFinalized,
    /// A print names a constant that was never registered.
    ConstantNotFound(usize),
    /// A constant to print is longer than the 255 bytes its length byte can hold.
    ConstantTooLong(usize),
}

/// A failure, with the place in the program it was found at.
#[derive(Debug, Clone, Copy, PartialEq, Eq, Structural)]
pub struct CodeGenError {
    /// Index of the block the error was found in.
    pub block: usize,
    /// Index, within the block, of the instruction the error was found at.
    pub instruction: usize,
    pub reason: CodeGenErrorReason,
}

impl CodeGenError {
    /// The block index and the instruction index the error was found at.
    pub fn location(&self) -> (loc: (usize, usize))
        ensures
            loc == (self.block, self.instruction),
    {
        (self.block, self.instruction)
    }

    pub fn reason(&self) -> (r: CodeGenErrorReason)
        ensures
            r == self.reason,
    {
        self.reason
    }
}

/// The general-purpose registers of x86-64.
#[derive(Debug, Clone, Copy, PartialEq, Eq, Structural)]
pub enum MachineRegister {
    Rax,
    Rcx,
    Rdx,
    Rbx,
    Rsp,
    Rbp,
    Rsi,
    Rdi,
    R8,
    R9,
    R10,
    R11,
    R12,
    R13,
    R14,
    R15,
}

impl MachineRegister {
    /// The number of the register in instruction encodings.
    pub open spec fn code(self) -> nat {
        match self {
            MachineRegister::Rax => 0,
            MachineRegister::Rcx => 1,
            MachineRegister::Rdx => 2,
            MachineRegister::Rbx => 3,
            MachineRegister::Rsp => 4,
            MachineRegister::Rbp => 5,
            MachineRegister::Rsi => 6,
            MachineRegister::Rdi => 7,
            MachineRegister::R8 => 8,
            MachineRegister::R9 => 9,
            MachineRegister::R10 => 10,
            MachineRegister::R11 => 11,
            MachineRegister::R12 => 12,
            MachineRegister::R13 => 13,
            MachineRegister::R14 => 14,
            MachineRegister::R15 => 15,
        }
    }

    /// The number of the register in instruction encodings.
    pub fn encoding(&self) -> (n: u8)
        ensures
            n == self.code(),
    {
        match self {
            MachineRegister::Rax => 0,
            MachineRegister::Rcx => 1,
            MachineRegister::Rdx => 2,
            MachineRegister::Rbx => 3,
            MachineRegister::Rsp => 4,
            MachineRegister::Rbp => 5,
            MachineRegister::Rsi => 6,
            MachineRegister::Rdi => 7,
            MachineRegister::R8 => 8,
            MachineRegister::R9 => 9,
            MachineRegister::R10 => 10,
            MachineRegister::R11 => 11,
            MachineRegister::R12 => 12,
            MachineRegister::R13 => 13,
            MachineRegister::R14 => 14,
            MachineRegister::R15 => 15,
        }
    }

    /// Whether the register may hold a virtual register: the frame registers and
    /// the registers the print helper clobbers may not.
    pub open spec fn allocatable(self) -> bool {
        self == MachineRegister::Rdx || self == MachineRegister::Rbx || self.code() >= 8
    }
}


/// A place in the emitted code that jumps and address loads refer to.
#[derive(Debug, Clone, Copy, PartialEq, Eq, Hash, Structural)]
pub enum Label {
    /// The bytes of the constant with this index.
    Constant(usize),
    /// The first operation of the basic block with this index.
    Block(usize),
}

/// One machine operation, to be encoded by an assembler. Registers are 64 bits
/// wide unless the operation says otherwise.
#[derive(Debug, Clone, Copy, PartialEq, Eq, Structural)]
#[allow(inconsistent_fields)]
pub enum AsmOp {
    /// Binds the label to this place.
    Bind(Label),
    /// The raw bytes of the constant with this index.
    Bytes(usize),
    /// `push reg`
    Push(MachineRegister),
    /// `pop reg`
    Pop(MachineRegister),
    /// `mov dest, src`
    MovRR { dest: MachineRegister, src: MachineRegister },
    /// `add dest, src`
    AddRR { dest: MachineRegister, src: MachineRegister },
    /// `sub dest, src`
    SubRR { dest: MachineRegister, src: MachineRegister },
    /// `xor dest, dest` on the low 32 bits, which clears the whole register.
    Clear(MachineRegister),
    /// A move of an immediate of `bits` bits into the low bits of `dest`.
    MovImm { dest: MachineRegister, bits: u8, value: u64 },
    /// `add dest, value`
    AddImm { dest: MachineRegister, value: u32 },
    /// `sub dest, value`
    SubImm { dest: MachineRegister, value: u32 },
    /// `lea dest, [rbp - below]`
    LeaFrame { dest: MachineRegister, below: u32 },
    /// `lea dest, [label]`
    LeaLabel { dest: MachineRegister, label: Label },
    /// `mov [ptr], src`, all 64 bits of `src`.
    Store64 { ptr: MachineRegister, src: MachineRegister },
    /// `mov [ptr], src`, the low 32 bits of `src`.
    Store32 { ptr: MachineRegister, src: MachineRegister },
    /// `mov [ptr], src`, the low 16 bits of `src`.
    Store16 { ptr: MachineRegister, src: MachineRegister },
    /// `mov [ptr], src`, the low 8 bits of `src`.
    Store8 { ptr: MachineRegister, src: MachineRegister },
    /// `mov dest, [ptr]`, 32 bits, zero-extended.
    Load32 { dest: MachineRegister, ptr: MachineRegister },
    /// `cmp reg, 0`
    CmpZero(MachineRegister),
    /// `jmp label`
    Jmp(Label),
    /// `je label`
    Je(Label),
    /// `jne label`
    Jne(Label),
    /// A move of the address of the host's print function into `dest`.
    MovHostPrint(MachineRegister),
    /// `call reg`
    CallReg(MachineRegister),
    /// `ret`
    Ret,
}

/// Two to the power of the operand size of `ty`.
pub open spec fn modulus(ty: PrimitiveValue) -> int {
    match ty {
        PrimitiveValue::U8 | PrimitiveValue::I8 => 0x100,
        PrimitiveValue::U16 | PrimitiveValue::I16 => 0x1_0000,
        PrimitiveValue::U32 | PrimitiveValue::I32 => 0x1_0000_0000,
        PrimitiveValue::U64 | PrimitiveValue::I64 => 0x1_0000_0000_0000_0000,
    }
}

/// The bits an immediate of type `ty` with payload `value` stands for: the
/// payload cut to the operand size.
pub open spec fn imm_bits(ty: PrimitiveValue, value: int) -> u64 {
    (value % modulus(ty)) as u64
}

/// The operations that move the immediate `value` of type `ty` into `dest`,
/// cut to the operand size and zero-extended: operand sizes up to 32 bits clear
/// the register first.
pub open spec fn mov_imm_ops(dest: MachineRegister, value: u64, ty: PrimitiveValue) -> Seq<AsmOp> {
    if ty.bits() < 64 {
        seq![
            AsmOp::Clear(dest),
            AsmOp::MovImm { dest, bits: ty.bits() as u8, value: imm_bits(ty, value as int) },
        ]
    } else {
        seq![AsmOp::MovImm { dest, bits: 64, value: imm_bits(ty, value as int) }]
    }
}

/// The bits of `value` cut to the operand size of `ty`.
pub fn truncate_immediate(ty: PrimitiveValue, value: u128) -> (bits: u64)
    ensures
        bits == imm_bits(ty, value as int),
{
    match ty {
        PrimitiveValue::U8 | PrimitiveValue::I8 => (value % 0x100) as u64,
        PrimitiveValue::U16 | PrimitiveValue::I16 => (value % 0x1_0000) as u64,
        PrimitiveValue::U32 | PrimitiveValue::I32 => (value % 0x1_0000_0000) as u64,
        PrimitiveValue::U64 | PrimitiveValue::I64 => (value % 0x1_0000_0000_0000_0000) as u64,
    }
}

/// Writes a zero-extending move of an immediate of the given type into a machine
/// register: the immediate is cut to the operand size of the type.
pub fn emit_mov_imm(ops: &mut Vec<AsmOp>, dest: MachineRegister, imm: u64, _type: PrimitiveValue)
    ensures
        final(ops)@ == old(ops)@ + mov_imm_ops(dest, imm, _type),
{
    let bits = _type.width();
    let value = truncate_immediate(_type, imm as u128);
    if bits < 64 {
        ops.push(AsmOp::Clear(dest));
        ops.push(AsmOp::MovImm { dest, bits, value });
    } else {
        ops.push(AsmOp::MovImm { dest, bits: 64, value });
    }
    assert(ops@ =~= old(ops)@ + mov_imm_ops(dest, imm, _type));
}

/// The machine register that holds virtual register `r`, if one was assigned.
pub open spec fn reg_of(regs: Seq<Option<MachineRegister>>, r: RegisterIndex) -> Option<MachineRegister> {
    if r.0 < regs.len() {
        regs[r.0 as int]
    } else {
        None
    }
}

/// The machine register that holds virtual register `r`, if one was assigned.
pub fn lookup(regs: &Vec<Option<MachineRegister>>, r: RegisterIndex) -> (m: Option<MachineRegister>)
    ensures
        m == reg_of(regs@, r),
{
    if r.0 < regs.len() {
        regs[r.0]
    } else {
        None
    }
}

/// The folded constant of `v1 + v2` (or `v1 - v2`) at the operand size of `ty`.
pub open spec fn fold(is_add: bool, ty: PrimitiveValue, v1: usize, v2: usize) -> u64 {
    if is_add {
        imm_bits(ty, v1 + v2)
    } else {
        imm_bits(ty, v1 - v2)
    }
}

/// The folded constant of `v1 + v2` (or `v1 - v2`) at the operand size of `ty`.
pub fn fold_constants(is_add: bool, ty: PrimitiveValue, v1: usize, v2: usize) -> (bits: u64)
    ensures
        bits == fold(is_add, ty, v1, v2),
{
    if is_add {
        truncate_immediate(ty, v1 as u128 + v2 as u128)
    } else {
        let lifted: u128 = v1 as u128 + 0x1_0000_0000_0000_0000u128 - v2 as u128;
        proof {
            let m = modulus(ty);
            let k = 0x1_0000_0000_0000_0000int / m;
            assert(m * k == 0x1_0000_0000_0000_0000int);
            vstd::arithmetic::div_mod::lemma_mod_multiples_vanish(k, v1 - v2, m);
        }
        truncate_immediate(ty, lifted)
    }
}

/// `add dest, src` or `sub dest, src`.
pub open spec fn arith_rr(is_add: bool, dest: MachineRegister, src: MachineRegister) -> AsmOp {
    if is_add {
        AsmOp::AddRR { dest, src }
    } else {
        AsmOp::SubRR { dest, src }
    }
}

/// The lowering of `dest = src1 + src2` (or `src1 - src2`).
///
/// Two registers: move the first into `dest`, then add or subtract the second.
/// An immediate and a register: move the immediate into `dest`, then add or
/// subtract the register; for register minus immediate the immediate goes
/// through `rax`. Two immediates are folded into one move.
pub open spec fn lower_arith(
    is_add: bool,
    dest: RegisterIndex,
    src1: Value,
    src2: Value,
    regs: Seq<Option<MachineRegister>>,
) -> Result<Seq<AsmOp>, CodeGenErrorReason> {
    match reg_of(regs, dest) {
        None => Err(CodeGenErrorReason::RegisterNotFound(dest.0)),
        Some(mdest) => match (src1, src2) {
            (Value::Register(r1), Value::Register(r2)) => match reg_of(regs, r1) {
                None => Err(CodeGenErrorReason::RegisterNotFound(r1.0)),
                Some(mr1) => match reg_of(regs, r2) {
                    None => Err(CodeGenErrorReason::RegisterNotFound(r2.0)),
                    Some(mr2) => Ok(
                        seq![AsmOp::MovRR { dest: mdest, src: mr1 }, arith_rr(is_add, mdest, mr2)],
                    ),
                },
            },
            (Value::Register(r1), Value::Immediate { _type, value }) => match reg_of(regs, r1) {
                None => Err(CodeGenErrorReason::RegisterNotFound(r1.0)),
                Some(mr1) => if is_add {
                    Ok(
                        mov_imm_ops(mdest, imm_bits(_type, value as int), _type)
                            + seq![AsmOp::AddRR { dest: mdest, src: mr1 }],
                    )
                } else {
                    Ok(
                        mov_imm_ops(MachineRegister::Rax, imm_bits(_type, value as int), _type)
                            + seq![
                            AsmOp::MovRR { dest: mdest, src: mr1 },
                            AsmOp::SubRR { dest: mdest, src: MachineRegister::Rax },
                        ],
                    )
                },
            },
            (Value::Immediate { _type, value }, Value::Register(r2)) => match reg_of(regs, r2) {
                None => Err(CodeGenErrorReason::RegisterNotFound(r2.0)),
                Some(mr2) => Ok(
                    mov_imm_ops(mdest, imm_bits(_type, value as int), _type)
                        + seq![arith_rr(is_add, mdest, mr2)],
                ),
            },
            (Value::Immediate { _type, value: v1 }, Value::Immediate { value: v2, .. }) => Ok(
                mov_imm_ops(mdest, fold(is_add, _type, v1, v2), _type),
            ),
        },
    }
}

/// The lowering of a conditional branch on `cond`: to `on_zero` where it is zero,
/// else to `otherwise`. A register is compared with zero; an immediate decides
/// the branch when the code is generated.
pub open spec fn lower_branch(
    cond: Value,
    jump_if_zero: bool,
    true_bb: BasicBlockIndex,
    false_bb: BasicBlockIndex,
    regs: Seq<Option<MachineRegister>>,
) -> Result<Seq<AsmOp>, CodeGenErrorReason> {
    match cond {
        Value::Register(r) => match reg_of(regs, r) {
            None => Err(CodeGenErrorReason::RegisterNotFound(r.0)),
            Some(m) => Ok(
                seq![
                    AsmOp::CmpZero(m),
                    if jump_if_zero {
                        AsmOp::Je(Label::Block(true_bb.0))
                    } else {
                        AsmOp::Jne(Label::Block(true_bb.0))
                    },
                    AsmOp::Jmp(Label::Block(false_bb.0)),
                ],
            ),
        },
        Value::Immediate { _type, value } => Ok(
            seq![
                AsmOp::Jmp(
                    Label::Block(
                        if (imm_bits(_type, value as int) == 0) == jump_if_zero {
                            true_bb.0
                        } else {
                            false_bb.0
                        },
                    ),
                ),
            ],
        ),
    }
}

/// The registers a print saves before the call and restores after it.
pub open spec fn caller_saved() -> Seq<MachineRegister> {
    seq![
        MachineRegister::Rax,
        MachineRegister::Rcx,
        MachineRegister::Rdx,
        MachineRegister::Rsi,
        MachineRegister::Rdi,
        MachineRegister::R8,
        MachineRegister::R9,
        MachineRegister::R10,
        MachineRegister::R11,
    ]
}

/// The lowering of a print of constant `c`, which is `len` bytes long: save the
/// caller-saved registers, pass the address and the length, call the host's
/// print function, restore the registers in reverse.
pub open spec fn print_ops(c: usize, len: u8) -> Seq<AsmOp> {
    Seq::new(9, |i: int| AsmOp::Push(caller_saved()[i])) + seq![
        AsmOp::LeaLabel { dest: MachineRegister::Rdi, label: Label::Constant(c) },
        AsmOp::Clear(MachineRegister::Rsi),
        AsmOp::MovImm { dest: MachineRegister::Rsi, bits: 8, value: len as u64 },
        AsmOp::MovHostPrint(MachineRegister::Rax),
        AsmOp::CallReg(MachineRegister::Rax),
    ] + Seq::new(9, |i: int| AsmOp::Pop(caller_saved()[8 - i]))
}

/// The function prologue: set up the frame and save the callee-saved registers.
pub open spec fn prologue_ops() -> Seq<AsmOp> {
    seq![
        AsmOp::Push(MachineRegister::Rbp),
        AsmOp::MovRR { dest: MachineRegister::Rbp, src: MachineRegister::Rsp },
        AsmOp::SubImm { dest: MachineRegister::Rsp, value: 8 },
        AsmOp::Push(MachineRegister::Rbx),
        AsmOp::Push(MachineRegister::Rdi),
        AsmOp::Push(MachineRegister::Rsi),
    ]
}

/// The function epilogue: restore what the prologue saved, and return.
pub open spec fn epilogue_ops() -> Seq<AsmOp> {
    seq![
        AsmOp::Pop(MachineRegister::Rsi),
        AsmOp::Pop(MachineRegister::Rdi),
        AsmOp::Pop(MachineRegister::Rbx),
        AsmOp::AddImm { dest: MachineRegister::Rsp, value: 8 },
        AsmOp::MovRR { dest: MachineRegister::Rsp, src: MachineRegister::Rbp },
        AsmOp::Pop(MachineRegister::Rbp),
        AsmOp::Ret,
    ]
}

/// The store of register `src` through the pointer in `ptr`, as wide as the type
/// of the value; 64 bits wide where the type is not known.
pub open spec fn store_op(ty: Option<PrimitiveValue>, ptr: MachineRegister, src: MachineRegister) -> AsmOp {
    match ty {
        Some(t) => if t.bits() == 8 {
            AsmOp::Store8 { ptr, src }
        } else if t.bits() == 16 {
            AsmOp::Store16 { ptr, src }
        } else if t.bits() == 32 {
            AsmOp::Store32 { ptr, src }
        } else {
            AsmOp::Store64 { ptr, src }
        },
        None => AsmOp::Store64 { ptr, src },
    }
}

/// The machine operations one instruction is lowered to, or why it has none.
/// `regs` maps virtual registers to machine registers; `constants` are the
/// constants of the program; `types` holds the types of the registers that the
/// instructions before this one, in program order, give them.
pub open spec fn lower(
    inst: IR,
    regs: Seq<Option<MachineRegister>>,
    constants: Seq<Seq<u8>>,
    types: Seq<Option<PrimitiveValue>>,
) -> Result<Seq<AsmOp>, CodeGenErrorReason> {
    match inst {
        IR::PrintConstant { constant_ref } => if constant_ref.0 >= constants.len() {
            Err(CodeGenErrorReason::ConstantNotFound(constant_ref.0))
        } else if constants[constant_ref.0 as int].len() > 255 {
            Err(CodeGenErrorReason::ConstantTooLong(constant_ref.0))
        } else {
            Ok(print_ops(constant_ref.0, constants[constant_ref.0 as int].len() as u8))
        },
        IR::Jump { bb_idx } => Ok(seq![AsmOp::Jmp(Label::Block(bb_idx.0))]),
        IR::JumpIfEqual { src_register, true_bb_idx, false_bb_idx } => lower_branch(
            src_register,
            true,
            true_bb_idx,
            false_bb_idx,
            regs,
        ),
        IR::JumpIfNotEqual { src_register, true_bb_idx, false_bb_idx } => lower_branch(
            src_register,
            false,
            true_bb_idx,
            false_bb_idx,
            regs,
        ),
        IR::Add { dest_register, src1, src2 } => lower_arith(true, dest_register, src1, src2, regs),
        IR::Subtract { dest_register, src1, src2 } => lower_arith(
            false,
            dest_register,
            src1,
            src2,
            regs,
        ),
        IR::Alloca { dest_register, _type, .. } => match reg_of(regs, dest_register) {
            None => Err(CodeGenErrorReason::RegisterNotFound(dest_register.0)),
            Some(mdest) => if _type.bits() == 32 {
                Ok(seq![AsmOp::LeaFrame { dest: mdest, below: 4 }])
            } else {
                Err(CodeGenErrorReason::Unsupported)
            },
        },
        IR::Load { dest_register, src_register } => match (dest_register, src_register) {
            (Value::Register(dest), Value::Register(src)) => match reg_of(regs, dest) {
                None => Err(CodeGenErrorReason::RegisterNotFound(dest.0)),
                Some(mdest) => match reg_of(regs, src) {
                    None => Err(CodeGenErrorReason::RegisterNotFound(src.0)),
                    Some(msrc) => Ok(seq![AsmOp::Load32 { dest: mdest, ptr: msrc }]),
                },
            },
            _ => Err(CodeGenErrorReason::Unsupported),
        },
        IR::Store { dest_register, src_register } => match (dest_register, src_register) {
            (Value::Register(dest), Value::Register(src)) => match reg_of(regs, dest) {
                None => Err(CodeGenErrorReason::RegisterNotFound(dest.0)),
                Some(mdest) => match reg_of(regs, src) {
                    None => Err(CodeGenErrorReason::RegisterNotFound(src.0)),
                    Some(msrc) => Ok(seq![store_op(value_type(types, src_register), mdest, msrc)]),
                },
            },
            (Value::Register(dest), Value::Immediate { _type, value }) => match reg_of(regs, dest) {
                None => Err(CodeGenErrorReason::RegisterNotFound(dest.0)),
                Some(mdest) => if _type == PrimitiveValue::U32 {
                    Ok(
                        seq![
                            AsmOp::MovImm {
                                dest: MachineRegister::Rax,
                                bits: 32,
                                value: imm_bits(_type, value as int),
                            },
                            AsmOp::Store32 { ptr: mdest, src: MachineRegister::Rax },
                        ],
                    )
                } else {
                    Err(CodeGenErrorReason::Unsupported)
                },
            },
            _ => Err(CodeGenErrorReason::Unsupported),
        },
        IR::Return => Ok(epilogue_ops()),
        IR::Multiply { .. } => Err(CodeGenErrorReason::Unsupported),
        IR::Divide { .. } => Err(CodeGenErrorReason::Unsupported),
    }
}


fn lower_arith_exec(
    is_add: bool,
    dest: RegisterIndex,
    src1: Value,
    src2: Value,
    regs: &Vec<Option<MachineRegister>>,
) -> (r: Result<Vec<AsmOp>, CodeGenErrorReason>)
    ensures
        r matches Ok(ops) ==> lower_arith(is_add, dest, src1, src2, regs@) == Ok::<
            Seq<AsmOp>,
            CodeGenErrorReason,
        >(ops@),
        r matches Err(e) ==> lower_arith(is_add, dest, src1, src2, regs@) == Err::<
            Seq<AsmOp>,
            CodeGenErrorReason,
        >(e),
{
    let mdest = match lookup(regs, dest) {
        None => {
            return Err(CodeGenErrorReason::RegisterNotFound(dest.0));
        },
        Some(m) => m,
    };
    let mut ops: Vec<AsmOp> = Vec::new();
    match (src1, src2) {
        (Value::Register(r1), Value::Register(r2)) => {
            let mr1 = match lookup(regs, r1) {
                None => {
                    return Err(CodeGenErrorReason::RegisterNotFound(r1.0));
                },
                Some(m) => m,
            };
            let mr2 = match lookup(regs, r2) {
                None => {
                    return Err(CodeGenErrorReason::RegisterNotFound(r2.0));
                },
                Some(m) => m,
            };
            ops.push(AsmOp::MovRR { dest: mdest, src: mr1 });
            if is_add {
                ops.push(AsmOp::AddRR { dest: mdest, src: mr2 });
            } else {
                ops.push(AsmOp::SubRR { dest: mdest, src: mr2 });
            }
            assert(ops@ =~= seq![AsmOp::MovRR { dest: mdest, src: mr1 }, arith_rr(is_add, mdest, mr2)]);
        },
        (Value::Register(r1), Value::Immediate { _type, value }) => {
            let mr1 = match lookup(regs, r1) {
                None => {
                    return Err(CodeGenErrorReason::RegisterNotFound(r1.0));
                },
                Some(m) => m,
            };
            let bits = truncate_immediate(_type, value as u128);
            if is_add {
                emit_mov_imm(&mut ops, mdest, bits, _type);
                ops.push(AsmOp::AddRR { dest: mdest, src: mr1 });
                assert(ops@ =~= mov_imm_ops(mdest, bits, _type) + seq![
                    AsmOp::AddRR { dest: mdest, src: mr1 },
                ]);
            } else {
                emit_mov_imm(&mut ops, MachineRegister::Rax, bits, _type);
                ops.push(AsmOp::MovRR { dest: mdest, src: mr1 });
                ops.push(AsmOp::SubRR { dest: mdest, src: MachineRegister::Rax });
                assert(ops@ =~= mov_imm_ops(MachineRegister::Rax, bits, _type) + seq![
                    AsmOp::MovRR { dest: mdest, src: mr1 },
                    AsmOp::SubRR { dest: mdest, src: MachineRegister::Rax },
                ]);
            }
        },
        (Value::Immediate { _type, value }, Value::Register(r2)) => {
            let mr2 = match lookup(regs, r2) {
                None => {
                    return Err(CodeGenErrorReason::RegisterNotFound(r2.0));
                },
                Some(m) => m,
            };
            let bits = truncate_immediate(_type, value as u128);
            emit_mov_imm(&mut ops, mdest, bits, _type);
            if is_add {
                ops.push(AsmOp::AddRR { dest: mdest, src: mr2 });
            } else {
                ops.push(AsmOp::SubRR { dest: mdest, src: mr2 });
            }
            assert(ops@ =~= mov_imm_ops(mdest, bits, _type) + seq![arith_rr(is_add, mdest, mr2)]);
        },
        (Value::Immediate { _type, value: v1 }, Value::Immediate { value: v2, .. }) => {
            let bits = fold_constants(is_add, _type, v1, v2);
            emit_mov_imm(&mut ops, mdest, bits, _type);
            assert(ops@ =~= mov_imm_ops(mdest, bits, _type));
        },
    }
    Ok(ops)
}

fn lower_branch_exec(
    cond: Value,
    jump_if_zero: bool,
    true_bb: BasicBlockIndex,
    false_bb: BasicBlockIndex,
    regs: &Vec<Option<MachineRegister>>,
) -> (r: Result<Vec<AsmOp>, CodeGenErrorReason>)
    ensures
        r matches Ok(ops) ==> lower_branch(cond, jump_if_zero, true_bb, false_bb, regs@) == Ok::<
            Seq<AsmOp>,
            CodeGenErrorReason,
        >(ops@),
        r matches Err(e) ==> lower_branch(cond, jump_if_zero, true_bb, false_bb, regs@) == Err::<
            Seq<AsmOp>,
            CodeGenErrorReason,
        >(e),
{
    let mut ops: Vec<AsmOp> = Vec::new();
    match cond {
        Value::Register(r) => {
            let m = match lookup(regs, r) {
                None => {
                    return Err(CodeGenErrorReason::RegisterNotFound(r.0));
                },
                Some(m) => m,
            };
            ops.push(AsmOp::CmpZero(m));
            if jump_if_zero {
                ops.push(AsmOp::Je(Label::Block(true_bb.0)));
            } else {
                ops.push(AsmOp::Jne(Label::Block(true_bb.0)));
            }
            ops.push(AsmOp::Jmp(Label::Block(false_bb.0)));
            assert(ops@ =~= seq![
                AsmOp::CmpZero(m),
                if jump_if_zero {
                    AsmOp::Je(Label::Block(true_bb.0))
                } else {
                    AsmOp::Jne(Label::Block(true_bb.0))
                },
                AsmOp::Jmp(Label::Block(false_bb.0)),
            ]);
        },
        Value::Immediate { _type, value } => {
            let is_zero = truncate_immediate(_type, value as u128) == 0;
            let target = if is_zero == jump_if_zero {
                true_bb.0
            } else {
                false_bb.0
            };
            ops.push(AsmOp::Jmp(Label::Block(target)));
            assert(ops@ =~= seq![AsmOp::Jmp(Label::Block(target))]);
        },
    }
    Ok(ops)
}

fn print_ops_exec(c: usize, len: u8) -> (ops: Vec<AsmOp>)
    ensures
        ops@ == print_ops(c, len),
{
    let mut ops: Vec<AsmOp> = Vec::new();
    ops.push(AsmOp::Push(MachineRegister::Rax));
    ops.push(AsmOp::Push(MachineRegister::Rcx));
    ops.push(AsmOp::Push(MachineRegister::Rdx));
    ops.push(AsmOp::Push(MachineRegister::Rsi));
    ops.push(AsmOp::Push(MachineRegister::Rdi));
    ops.push(AsmOp::Push(MachineRegister::R8));
    ops.push(AsmOp::Push(MachineRegister::R9));
    ops.push(AsmOp::Push(MachineRegister::R10));
    ops.push(AsmOp::Push(MachineRegister::R11));
    ops.push(AsmOp::LeaLabel { dest: MachineRegister::Rdi, label: Label::Constant(c) });
    ops.push(AsmOp::Clear(MachineRegister::Rsi));
    ops.push(AsmOp::MovImm { dest: MachineRegister::Rsi, bits: 8, value: len as u64 });
    ops.push(AsmOp::MovHostPrint(MachineRegister::Rax));
    ops.push(AsmOp::CallReg(MachineRegister::Rax));
    ops.push(AsmOp::Pop(MachineRegister::R11));
    ops.push(AsmOp::Pop(MachineRegister::R10));
    ops.push(AsmOp::Pop(MachineRegister::R9));
    ops.push(AsmOp::Pop(MachineRegister::R8));
    ops.push(AsmOp::Pop(MachineRegister::Rdi));
    ops.push(AsmOp::Pop(MachineRegister::Rsi));
    ops.push(AsmOp::Pop(MachineRegister::Rdx));
    ops.push(AsmOp::Pop(MachineRegister::Rcx));
    ops.push(AsmOp::Pop(MachineRegister::Rax));
    assert(ops@ =~= print_ops(c, len));
    ops
}

fn epilogue_exec() -> (ops: Vec<AsmOp>)
    ensures
        ops@ == epilogue_ops(),
{
    let mut ops: Vec<AsmOp> = Vec::new();
    ops.push(AsmOp::Pop(MachineRegister::Rsi));
    ops.push(AsmOp::Pop(MachineRegister::Rdi));
    ops.push(AsmOp::Pop(MachineRegister::Rbx));
    ops.push(AsmOp::AddImm { dest: MachineRegister::Rsp, value: 8 });
    ops.push(AsmOp::MovRR { dest: MachineRegister::Rsp, src: MachineRegister::Rbp });
    ops.push(AsmOp::Pop(MachineRegister::Rbp));
    ops.push(AsmOp::Ret);
    assert(ops@ =~= epilogue_ops());
    ops
}

fn one_op(op: AsmOp) -> (ops: Vec<AsmOp>)
    ensures
        ops@ == seq![op],
{
    let mut ops: Vec<AsmOp> = Vec::new();
    ops.push(op);
    assert(ops@ =~= seq![op]);
    ops
}

fn store_op_exec(ty: Option<PrimitiveValue>, ptr: MachineRegister, src: MachineRegister) -> (op: AsmOp)
    ensures
        op == store_op(ty, ptr, src),
{
    match ty {
        Some(t) => {
            let bits = t.width();
            if bits == 8 {
                AsmOp::Store8 { ptr, src }
            } else if bits == 16 {
                AsmOp::Store16 { ptr, src }
            } else if bits == 32 {
                AsmOp::Store32 { ptr, src }
            } else {
                AsmOp::Store64 { ptr, src }
            }
        },
        None => AsmOp::Store64 { ptr, src },
    }
}

/// Lowers one instruction to machine operations.
pub fn lower_instruction(
    ctx: &Context,
    inst: &IR,
    regs: &Vec<Option<MachineRegister>>,
    types: &Vec<Option<PrimitiveValue>>,
) -> (r: Result<Vec<AsmOp>, CodeGenErrorReason>)
    ensures
        r matches Ok(ops) ==> lower(*inst, regs@, ctx@.constants, types@) == Ok::<
            Seq<AsmOp>,
            CodeGenErrorReason,
        >(ops@),
        r matches Err(e) ==> lower(*inst, regs@, ctx@.constants, types@) == Err::<
            Seq<AsmOp>,
            CodeGenErrorReason,
        >(e),
{
    match *inst {
        IR::PrintConstant { constant_ref } => match ctx.get_constant(constant_ref) {
            None => Err(CodeGenErrorReason::ConstantNotFound(constant_ref.0)),
            Some(bytes) => {
                let len = bytes.len();
                if len > 255 {
                    Err(CodeGenErrorReason::ConstantTooLong(constant_ref.0))
                } else {
                    Ok(print_ops_exec(constant_ref.0, len as u8))
                }
            },
        },
        IR::Jump { bb_idx } => Ok(one_op(AsmOp::Jmp(Label::Block(bb_idx.0)))),
        IR::JumpIfEqual { src_register, true_bb_idx, false_bb_idx } => lower_branch_exec(
            src_register,
            true,
            true_bb_idx,
            false_bb_idx,
            regs,
        ),
        IR::JumpIfNotEqual { src_register, true_bb_idx, false_bb_idx } => lower_branch_exec(
            src_register,
            false,
            true_bb_idx,
            false_bb_idx,
            regs,
        ),
        IR::Add { dest_register, src1, src2 } => lower_arith_exec(
            true,
            dest_register,
            src1,
            src2,
            regs,
        ),
        IR::Subtract { dest_register, src1, src2 } => lower_arith_exec(
            false,
            dest_register,
            src1,
            src2,
            regs,
        ),
        IR::Alloca { dest_register, _type, .. } => match lookup(regs, dest_register) {
            None => Err(CodeGenErrorReason::RegisterNotFound(dest_register.0)),
            Some(mdest) => if _type.width() == 32 {
                Ok(one_op(AsmOp::LeaFrame { dest: mdest, below: 4 }))
            } else {
                Err(CodeGenErrorReason::Unsupported)
            },
        },
        IR::Load { dest_register, src_register } => match (dest_register, src_register) {
            (Value::Register(dest), Value::Register(src)) => match lookup(regs, dest) {
                None => Err(CodeGenErrorReason::RegisterNotFound(dest.0)),
                Some(mdest) => match lookup(regs, src) {
                    None => Err(CodeGenErrorReason::RegisterNotFound(src.0)),
                    Some(msrc) => Ok(one_op(AsmOp::Load32 { dest: mdest, ptr: msrc })),
                },
            },
            _ => Err(CodeGenErrorReason::Unsupported),
        },
        IR::Store { dest_register, src_register } => match (dest_register, src_register) {
            (Value::Register(dest), Value::Register(src)) => match lookup(regs, dest) {
                None => Err(CodeGenErrorReason::RegisterNotFound(dest.0)),
                Some(mdest) => match lookup(regs, src) {
                    None => Err(CodeGenErrorReason::RegisterNotFound(src.0)),
                    Some(msrc) => Ok(
                        one_op(store_op_exec(type_of_value(types, src_register), mdest, msrc)),
                    ),
                },
            },
            (Value::Register(dest), Value::Immediate { _type, value }) => match lookup(regs, dest) {
                None => Err(CodeGenErrorReason::RegisterNotFound(dest.0)),
                Some(mdest) => match _type {
                    PrimitiveValue::U32 => {
                        let mut ops: Vec<AsmOp> = Vec::new();
                        let bits = truncate_immediate(_type, value as u128);
                        ops.push(AsmOp::MovImm { dest: MachineRegister::Rax, bits: 32, value: bits });
                        ops.push(AsmOp::Store32 { ptr: mdest, src: MachineRegister::Rax });
                        assert(ops@ =~= seq![
                            AsmOp::MovImm { dest: MachineRegister::Rax, bits: 32, value: bits },
                            AsmOp::Store32 { ptr: mdest, src: MachineRegister::Rax },
                        ]);
                        Ok(ops)
                    },
                    _ => Err(CodeGenErrorReason::Unsupported),
                },
            },
            _ => Err(CodeGenErrorReason::Unsupported),
        },
        IR::Return => Ok(epilogue_exec()),
        IR::Multiply { .. } => Err(CodeGenErrorReason::Unsupported),
        IR::Divide { .. } => Err(CodeGenErrorReason::Unsupported),
    }
}

/// The types of the registers after the instructions of the code from `from` on.
pub open spec fn types_through(code: Seq<IR>, types: Seq<Option<PrimitiveValue>>, from: int) -> Seq<
    Option<PrimitiveValue>,
>
    decreases code.len() - from,
{
    if from < 0 || from >= code.len() {
        types
    } else {
        types_through(code, types_after(types, code[from]), from + 1)
    }
}

/// The lowering of the instructions of a block from instruction `from` on, or the
/// index of the first instruction without a lowering and why it has none.
/// `types` holds the types of the registers before instruction `from`.
pub open spec fn lower_code(
    code: Seq<IR>,
    regs: Seq<Option<MachineRegister>>,
    constants: Seq<Seq<u8>>,
    types: Seq<Option<PrimitiveValue>>,
    from: int,
) -> Result<Seq<AsmOp>, (int, CodeGenErrorReason)>
    decreases code.len() - from,
{
    if from < 0 || from >= code.len() {
        Ok(Seq::empty())
    } else {
        match lower(code[from], regs, constants, types) {
            Err(reason) => Err((from, reason)),
            Ok(ops) => match lower_code(
                code,
                regs,
                constants,
                types_after(types, code[from]),
                from + 1,
            ) {
                Err(e) => Err(e),
                Ok(rest) => Ok(ops + rest),
            },
        }
    }
}

/// The lowering of the blocks from block `from` on, each behind its label, in
/// block order; or the first instruction without a lowering. `types` holds the
/// types of the registers before block `from`.
pub open spec fn lower_blocks(
    blocks: Seq<BlockView>,
    regs: Seq<Option<MachineRegister>>,
    constants: Seq<Seq<u8>>,
    types: Seq<Option<PrimitiveValue>>,
    from: int,
) -> Result<Seq<AsmOp>, CodeGenError>
    decreases blocks.len() - from,
{
    if from < 0 || from >= blocks.len() {
        Ok(Seq::empty())
    } else {
        match lower_code(blocks[from].code, regs, constants, types, 0) {
            Err((i, reason)) => Err(
                CodeGenError { block: from as usize, instruction: i as usize, reason },
            ),
            Ok(ops) => match lower_blocks(
                blocks,
                regs,
                constants,
                types_through(blocks[from].code, types, 0),
                from + 1,
            ) {
                Err(e) => Err(e),
                Ok(rest) => Ok(seq![AsmOp::Bind(Label::Block(from as usize))] + ops + rest),
            },
        }
    }
}

/// The constants section: each constant behind its label, in registration order.
pub open spec fn constants_section(n: nat) -> Seq<AsmOp> {
    Seq::new(
        2 * n,
        |k: int|
            if k % 2 == 0 {
                AsmOp::Bind(Label::Constant((k / 2) as usize))
            } else {
                AsmOp::Bytes((k / 2) as usize)
            },
    )
}

/// Emitted code: the machine operations in order, and where the function starts.
#[derive(Debug)]
pub struct Program {
    /// The operations: the constants section, then the function.
    pub ops: Vec<AsmOp>,
    /// The index in `ops` of the first operation of the function.
    pub entry: usize,
}

/// The whole program as machine operations: the constants section, the prologue,
/// then the blocks in index order. No register has a known type at the start.
pub open spec fn program_ops(ctx: ContextView, regs: Seq<Option<MachineRegister>>) -> Result<
    Seq<AsmOp>,
    CodeGenError,
> {
    match lower_blocks(
        ctx.manager.blocks,
        regs,
        ctx.constants,
        Seq::new(regs.len(), |i: int| None::<PrimitiveValue>),
        0,
    ) {
        Err(e) => Err(e),
        Ok(body) => Ok(constants_section(ctx.constants.len()) + prologue_ops() + body),
    }
}

/// Emits the constants section: each constant at a fresh label, holding its raw
/// bytes.
pub fn set_up_constants(ctx: &Context, ops: &mut Vec<AsmOp>)
    ensures
        final(ops)@ == old(ops)@ + constants_section(ctx@.constants.len()),
{
    let n = ctx.constant_count();
    let mut i: usize = 0;
    while i < n
        invariant
            i <= n,
            n == ctx@.constants.len(),
            ops@ == old(ops)@ + constants_section(i as nat),
        decreases n - i,
    {
        ops.push(AsmOp::Bind(Label::Constant(i)));
        ops.push(AsmOp::Bytes(i));
        i += 1;
        assert(ops@ =~= old(ops)@ + constants_section(i as nat));
    }
}

/// Emits one block: its label, then the lowering of each instruction in order.
/// The table of types is carried through the instructions.
fn emit_block(
    ctx: &Context,
    b: usize,
    regs: &Vec<Option<MachineRegister>>,
    types: &mut Vec<Option<PrimitiveValue>>,
    ops: &mut Vec<AsmOp>,
) -> (r: Result<(), CodeGenError>)
    requires
        b < ctx@.manager.blocks.len(),
    ensures
        match lower_code(ctx@.manager.blocks[b as int].code, regs@, ctx@.constants, old(types)@, 0) {
            Ok(body) => r is Ok && final(ops)@ == old(ops)@ + seq![AsmOp::Bind(Label::Block(b))]
                + body && final(types)@ == types_through(
                ctx@.manager.blocks[b as int].code,
                old(types)@,
                0,
            ),
            Err((i, reason)) => r == Err::<(), CodeGenError>(
                CodeGenError { block: b, instruction: i as usize, reason },
            ),
        },
{
    let block = ctx.blocks().get(BasicBlockIndex(b)).unwrap();
    let code = block.instructions();
    let ghost c = code@;
    let ghost types0 = types@;
    let ghost start = old(ops)@ + seq![AsmOp::Bind(Label::Block(b))];
    ops.push(AsmOp::Bind(Label::Block(b)));
    let ghost mut acc: Seq<AsmOp> = Seq::empty();
    assert(ops@ =~= start + acc);
    let mut i: usize = 0;
    while i < code.len()
        invariant
            i <= code.len(),
            c == code@,
            c == ctx@.manager.blocks[b as int].code,
            ops@ == start + acc,
            types0 == old(types)@,
            types_through(c, types0, 0) == types_through(c, types@, i as int),
            match lower_code(c, regs@, ctx@.constants, types@, i as int) {
                Ok(rest) => lower_code(c, regs@, ctx@.constants, types0, 0) == Ok::<
                    Seq<AsmOp>,
                    (int, CodeGenErrorReason),
                >(acc + rest),
                Err(e) => lower_code(c, regs@, ctx@.constants, types0, 0) == Err::<
                    Seq<AsmOp>,
                    (int, CodeGenErrorReason),
                >(e),
            },
        decreases code.len() - i,
    {
        let ghost table = types@;
        match lower_instruction(ctx, &code[i], regs, types) {
            Err(reason) => {
                return Err(CodeGenError { block: b, instruction: i, reason });
            },
            Ok(mut more) => {
                proof {
                    match lower_code(c, regs@, ctx@.constants, types_after(table, c[i as int]), i + 1) {
                        Ok(rest) => {
                            assert(acc + (more@ + rest) =~= (acc + more@) + rest);
                        },
                        Err(e) => {},
                    }
                    assert(start + (acc + more@) =~= (start + acc) + more@);
                    acc = acc + more@;
                }
                ops.append(&mut more);
            },
        }
        record_type(types, &code[i]);
        i += 1;
    }
    proof {
        assert(acc + Seq::<AsmOp>::empty() =~= acc);
        assert(old(ops)@ + seq![AsmOp::Bind(Label::Block(b))] + acc =~= start + acc);
    }
    Ok(())
}

/// Lowers the whole program under the register assignment `regs`.
pub fn emit_program(ctx: &Context, regs: &Vec<Option<MachineRegister>>) -> (r: Result<
    Program,
    CodeGenError,
>)
    ensures
        match program_ops(ctx@, regs@) {
            Ok(all) => r is Ok && r->Ok_0.ops@ == all && r->Ok_0.entry == 2 * ctx@.constants.len(),
            Err(e) => r == Err::<Program, CodeGenError>(e),
        },
{
    let mut ops: Vec<AsmOp> = Vec::new();
    set_up_constants(ctx, &mut ops);
    let entry = ops.len();
    ops.push(AsmOp::Push(MachineRegister::Rbp));
    ops.push(AsmOp::MovRR { dest: MachineRegister::Rbp, src: MachineRegister::Rsp });
    ops.push(AsmOp::SubImm { dest: MachineRegister::Rsp, value: 8 });
    ops.push(AsmOp::Push(MachineRegister::Rbx));
    ops.push(AsmOp::Push(MachineRegister::Rdi));
    ops.push(AsmOp::Push(MachineRegister::Rsi));
    let ghost head = constants_section(ctx@.constants.len()) + prologue_ops();
    assert(ops@ =~= head);
    let mut types: Vec<Option<PrimitiveValue>> = Vec::new();
    let mut j: usize = 0;
    while j < regs.len()
        invariant
            j <= regs.len(),
            types@ == Seq::new(j as nat, |x: int| None::<PrimitiveValue>),
        decreases regs.len() - j,
    {
        types.push(None);
        j += 1;
        assert(types@ =~= Seq::new(j as nat, |x: int| None::<PrimitiveValue>));
    }
    let ghost types0 = types@;
    let n = ctx.blocks().len();
    let ghost blocks = ctx@.manager.blocks;
    let ghost mut acc: Seq<AsmOp> = Seq::empty();
    assert(ops@ =~= head + acc);
    let mut b: usize = 0;
    while b < n
        invariant
            b <= n,
            n == blocks.len(),
            blocks == ctx@.manager.blocks,
            ops@ == head + acc,
            entry == 2 * ctx@.constants.len(),
            types0 == Seq::new(regs@.len(), |x: int| None::<PrimitiveValue>),
            match lower_blocks(blocks, regs@, ctx@.constants, types@, b as int) {
                Ok(rest) => lower_blocks(blocks, regs@, ctx@.constants, types0, 0) == Ok::<
                    Seq<AsmOp>,
                    CodeGenError,
                >(acc + rest),
                Err(e) => lower_blocks(blocks, regs@, ctx@.constants, types0, 0) == Err::<
                    Seq<AsmOp>,
                    CodeGenError,
                >(e),
            },
        decreases n - b,
    {
        let ghost table = types@;
        match emit_block(ctx, b, regs, &mut types, &mut ops) {
            Err(e) => {
                return Err(e);
            },
            Ok(()) => {
                proof {
                    let body = lower_code(blocks[b as int].code, regs@, ctx@.constants, table, 0)->Ok_0;
                    let piece = seq![AsmOp::Bind(Label::Block(b))] + body;
                    match lower_blocks(
                        blocks,
                        regs@,
                        ctx@.constants,
                        types_through(blocks[b as int].code, table, 0),
                        b + 1,
                    ) {
                        Ok(rest) => {
                            assert(acc + (piece + rest) =~= (acc + piece) + rest);
                        },
                        Err(e) => {},
                    }
                    assert(ops@ =~= head + (acc + piece));
                    acc = acc + piece;
                }
            },
        }
        b += 1;
    }
    proof {
        assert(acc + Seq::<AsmOp>::empty() =~= acc);
    }
    Ok(Program { ops, entry })
}

/// The machine registers that may hold virtual registers, in the order they are
/// handed out: `rsp` and `rbp` hold the frame, and `rax`, `rcx`, `rsi` and `rdi`
/// are clobbered by a print.
pub open spec fn initial_pool() -> Seq<MachineRegister> {
    seq![
        MachineRegister::Rdx,
        MachineRegister::Rbx,
        MachineRegister::R8,
        MachineRegister::R9,
        MachineRegister::R10,
        MachineRegister::R11,
        MachineRegister::R12,
        MachineRegister::R13,
        MachineRegister::R14,
        MachineRegister::R15,
    ]
}

/// The free pool at the start of an allocation.
pub fn new_pool() -> (pool: VecDeque<MachineRegister>)
    ensures
        pool@ == initial_pool(),
{
    let mut pool: VecDeque<MachineRegister> = VecDeque::new();
    pool.push_back(MachineRegister::Rdx);
    pool.push_back(MachineRegister::Rbx);
    pool.push_back(MachineRegister::R8);
    pool.push_back(MachineRegister::R9);
    pool.push_back(MachineRegister::R10);
    pool.push_back(MachineRegister::R11);
    pool.push_back(MachineRegister::R12);
    pool.push_back(MachineRegister::R13);
    pool.push_back(MachineRegister::R14);
    pool.push_back(MachineRegister::R15);
    assert(pool@ =~= initial_pool());
    pool
}

/// The current map with `(v, m)` put in before the first entry of a higher
/// virtual register: the map stays ordered by virtual register.
pub open spec fn insert_sorted(
    cur: Seq<(usize, MachineRegister)>,
    v: usize,
    m: MachineRegister,
) -> Seq<(usize, MachineRegister)>
    decreases cur.len(),
{
    if cur.len() == 0 {
        seq![(v, m)]
    } else if cur[0].0 > v {
        seq![(v, m)] + cur
    } else {
        seq![cur[0]] + insert_sorted(cur.drop_first(), v, m)
    }
}

/// Whether register `v` is live at block `q`: on exit where `at_exit`, else on entry.
pub open spec fn live_at(gq: GraphQuery, v: int, q: int, at_exit: bool) -> bool {
    if at_exit {
        gq.live_out(v, q)
    } else {
        gq.live_in(v, q)
    }
}

/// The current map and the free pool after the entries that are not live at
/// block `q` gave their machine register back. The entries are looked at in the
/// order of the map, and the registers join the back of the pool in that order.
pub open spec fn release(
    gq: GraphQuery,
    cur: Seq<(usize, MachineRegister)>,
    pool: Seq<MachineRegister>,
    q: int,
    at_exit: bool,
) -> (Seq<(usize, MachineRegister)>, Seq<MachineRegister>)
    decreases cur.len(),
{
    if cur.len() == 0 {
        (cur, pool)
    } else if live_at(gq, cur[0].0 as int, q, at_exit) {
        let rest = release(gq, cur.drop_first(), pool, q, at_exit);
        (seq![cur[0]] + rest.0, rest.1)
    } else {
        release(gq, cur.drop_first(), pool.push(cur[0].1), q, at_exit)
    }
}

/// What the walk carries along one path: the machine registers of the values
/// that are live, the free pool, and the assignment found so far.
pub struct Assignment {
    pub current: Seq<(usize, MachineRegister)>,
    pub pool: Seq<MachineRegister>,
    pub map: Seq<Option<MachineRegister>>,
}

/// The state after every register defined from instruction `from` on took the
/// machine register at the front of the pool; or the index of the instruction
/// that failed, and why: the pool is empty, the register is above the table, or
/// it has a machine register already.
pub open spec fn allocate_definitions(code: Seq<IR>, from: int, a: Assignment) -> Result<
    Assignment,
    (int, CodeGenErrorReason),
>
    decreases code.len() - from,
{
    if from < 0 || from >= code.len() {
        Ok(a)
    } else {
        match defined_register(code[from]) {
            None => allocate_definitions(code, from + 1, a),
            Some(v) => if a.pool.len() == 0 {
                Err((from, CodeGenErrorReason::OutOfRegisters))
            } else if v >= a.map.len() {
                Err((from, CodeGenErrorReason::RegisterNotFound(v)))
            } else if a.map[v as int] is Some {
                Err((from, CodeGenErrorReason::RegisterValueTaken(v)))
            } else {
                allocate_definitions(
                    code,
                    from + 1,
                    Assignment {
                        current: insert_sorted(a.current, v, a.pool[0]),
                        pool: a.pool.drop_first(),
                        map: a.map.update(v as int, Some(a.pool[0])),
                    },
                )
            },
        }
    }
}

/// The number of blocks not yet visited.
pub open spec fn unseen_count(seen: Seq<bool>) -> nat
    decreases seen.len(),
{
    if seen.len() == 0 {
        0
    } else {
        unseen_count(seen.drop_last()) + if seen.last() {
            0nat
        } else {
            1nat
        }
    }
}

/// The assignment and the visited blocks after the depth-first walk has visited
/// block `q` and what can be reached from it; `fuel` bounds the depth of the walk.
///
/// A block visited before is skipped. Else the registers that are not live on
/// entry are released, each register the block defines takes a machine register,
/// the registers that are not live on exit are released, and the walk goes on into
/// each exit in order, each with the current map and the pool as they are here.
pub open spec fn visit(
    fuel: nat,
    blocks: Seq<BlockView>,
    gq: GraphQuery,
    q: usize,
    map: Seq<Option<MachineRegister>>,
    seen: Seq<bool>,
    current: Seq<(usize, MachineRegister)>,
    pool: Seq<MachineRegister>,
) -> Result<(Seq<Option<MachineRegister>>, Seq<bool>), CodeGenError>
    decreases fuel, 0nat,
{
    if fuel == 0 || q >= blocks.len() || q >= seen.len() || seen[q as int] {
        Ok((map, seen))
    } else {
        let entered = release(gq, current, pool, q as int, false);
        match allocate_definitions(
            blocks[q as int].code,
            0,
            Assignment { current: entered.0, pool: entered.1, map },
        ) {
            Err((i, reason)) => Err(CodeGenError { block: q, instruction: i as usize, reason }),
            Ok(a) => {
                let left = release(gq, a.current, a.pool, q as int, true);
                visit_exits(
                    (fuel - 1) as nat,
                    blocks,
                    gq,
                    blocks[q as int].exits,
                    0,
                    a.map,
                    seen.update(q as int, true),
                    left.0,
                    left.1,
                )
            },
        }
    }
}

/// The walk into the exits from index `k` on, in order.
pub open spec fn visit_exits(
    fuel: nat,
    blocks: Seq<BlockView>,
    gq: GraphQuery,
    exits: Seq<usize>,
    k: int,
    map: Seq<Option<MachineRegister>>,
    seen: Seq<bool>,
    current: Seq<(usize, MachineRegister)>,
    pool: Seq<MachineRegister>,
) -> Result<(Seq<Option<MachineRegister>>, Seq<bool>), CodeGenError>
    decreases fuel, 1 + exits.len() - k,
{
    if k < 0 || k >= exits.len() {
        Ok((map, seen))
    } else {
        match visit(fuel, blocks, gq, exits[k], map, seen, current, pool) {
            Err(e) => Err(e),
            Ok((map2, seen2)) => visit_exits(fuel, blocks, gq, exits, k + 1, map2, seen2, current, pool),
        }
    }
}

/// The register assignment of a program: the walk from the entry block with an
/// empty current map, the full pool and a table of `nregs` unassigned registers.
pub open spec fn allocation(blocks: Seq<BlockView>, start: usize, gq: GraphQuery, nregs: nat) -> Result<
    Seq<Option<MachineRegister>>,
    CodeGenError,
> {
    match visit(
        blocks.len(),
        blocks,
        gq,
        start,
        Seq::new(nregs, |i: int| None::<MachineRegister>),
        Seq::new(blocks.len(), |i: int| false),
        Seq::empty(),
        initial_pool(),
    ) {
        Err(e) => Err(e),
        Ok((map, _)) => Ok(map),
    }
}

/// Releases the machine registers of the values that are not live at block `q`.
fn release_dead(
    gq: &GraphQuery,
    current_map: &mut Vec<(usize, MachineRegister)>,
    available_registers: &mut VecDeque<MachineRegister>,
    q: usize,
    at_exit: bool,
)
    requires
        gq.wf(),
    ensures
        (final(current_map)@, final(available_registers)@) == release(
            *gq,
            old(current_map)@,
            old(available_registers)@,
            q as int,
            at_exit,
        ),
{
    let mut kept: Vec<(usize, MachineRegister)> = Vec::new();
    let ghost cur0 = current_map@;
    let ghost pool0 = available_registers@;
    let n = current_map.len();
    let mut i: usize = 0;
    assert(cur0.subrange(0, n as int) =~= cur0);
    assert(kept@ + release(*gq, cur0, pool0, q as int, at_exit).0 =~= release(*gq, cur0, pool0, q as int, at_exit).0);
    while i < n
        invariant
            i <= n,
            n == cur0.len(),
            current_map@ == cur0,
            gq.wf(),
            release(*gq, cur0, pool0, q as int, at_exit) == (
                kept@ + release(
                    *gq,
                    cur0.subrange(i as int, n as int),
                    available_registers@,
                    q as int,
                    at_exit,
                ).0,
                release(
                    *gq,
                    cur0.subrange(i as int, n as int),
                    available_registers@,
                    q as int,
                    at_exit,
                ).1,
            ),
        decreases n - i,
    {
        let (k, m) = current_map[i];
        let live = if at_exit {
            gq.is_live_out(RegisterIndex(k), BasicBlockIndex(q))
        } else {
            gq.is_live_in(RegisterIndex(k), BasicBlockIndex(q))
        };
        let ghost suffix = cur0.subrange(i as int, n as int);
        let ghost pool_before = available_registers@;
        let ghost kept_before = kept@;
        assert(suffix[0] == (k, m));
        assert(suffix.drop_first() =~= cur0.subrange(i + 1, n as int));
        if live {
            kept.push((k, m));
            proof {
                let rest = release(*gq, suffix.drop_first(), pool_before, q as int, at_exit);
                assert(kept_before + (seq![(k, m)] + rest.0) =~= kept@ + rest.0);
            }
        } else {
            available_registers.push_back(m);
        }
        i += 1;
    }
    proof {
        assert(cur0.subrange(n as int, n as int) =~= Seq::<(usize, MachineRegister)>::empty());
        assert(kept@ + Seq::<(usize, MachineRegister)>::empty() =~= kept@);
    }
    *current_map = kept;
}

/// Puts `(v, m)` into the current map, which stays ordered by virtual register.
fn insert_current(current_map: &mut Vec<(usize, MachineRegister)>, v: usize, m: MachineRegister)
    ensures
        final(current_map)@ == insert_sorted(old(current_map)@, v, m),
{
    let ghost cur0 = current_map@;
    let n = current_map.len();
    let mut i: usize = 0;
    assert(cur0.subrange(0, n as int) =~= cur0);
    assert(cur0.subrange(0, 0) + insert_sorted(cur0, v, m) =~= insert_sorted(cur0, v, m));
    while i < n && current_map[i].0 <= v
        invariant
            i <= n,
            n == cur0.len(),
            current_map@ == cur0,
            insert_sorted(cur0, v, m) == cur0.subrange(0, i as int) + insert_sorted(
                cur0.subrange(i as int, n as int),
                v,
                m,
            ),
        decreases n - i,
    {
        let ghost suffix = cur0.subrange(i as int, n as int);
        assert(suffix[0] == cur0[i as int]);
        assert(suffix.drop_first() =~= cur0.subrange(i + 1, n as int));
        assert(cur0.subrange(0, i as int) + (seq![suffix[0]] + insert_sorted(
            suffix.drop_first(),
            v,
            m,
        )) =~= cur0.subrange(0, i + 1) + insert_sorted(suffix.drop_first(), v, m));
        i += 1;
    }
    proof {
        let suffix = cur0.subrange(i as int, n as int);
        if i < n {
            assert(suffix[0] == cur0[i as int]);
        }
        assert(insert_sorted(suffix, v, m) =~= seq![(v, m)] + suffix);
        assert(cur0.subrange(0, i as int) + (seq![(v, m)] + suffix) =~= cur0.insert(i as int, (v, m)));
    }
    current_map.insert(i, (v, m));
}

/// Gives each register that the code defines the machine register at the front
/// of the pool.
#[verifier::loop_isolation(false)]
fn define_registers(
    code: &Vec<IR>,
    reg_map: &mut Vec<Option<MachineRegister>>,
    current_map: &mut Vec<(usize, MachineRegister)>,
    available_registers: &mut VecDeque<MachineRegister>,
) -> (r: Result<(), (usize, CodeGenErrorReason)>)
    ensures
        match allocate_definitions(
            code@,
            0,
            Assignment {
                current: old(current_map)@,
                pool: old(available_registers)@,
                map: old(reg_map)@,
            },
        ) {
            Ok(a) => r is Ok && a == (Assignment {
                current: final(current_map)@,
                pool: final(available_registers)@,
                map: final(reg_map)@,
            }),
            Err((i, reason)) => r == Err::<(), (usize, CodeGenErrorReason)>((i as usize, reason)),
        },
        final(reg_map)@.len() == old(reg_map)@.len(),
{
    let ghost start = Assignment {
        current: current_map@,
        pool: available_registers@,
        map: reg_map@,
    };
    let mut i: usize = 0;
    while i < code.len()
        invariant
            i <= code.len(),
            reg_map@.len() == old(reg_map)@.len(),
            allocate_definitions(code@, 0, start) == allocate_definitions(
                code@,
                i as int,
                Assignment { current: current_map@, pool: available_registers@, map: reg_map@ },
            ),
        decreases code.len() - i,
    {
        match code[i].defines() {
            None => {},
            Some(v) => {
                let ghost pool_before = available_registers@;
                let machine_reg = match available_registers.pop_front() {
                    None => {
                        return Err((i, CodeGenErrorReason::OutOfRegisters));
                    },
                    Some(m) => m,
                };
                assert(available_registers@ =~= pool_before.drop_first());
                if v >= reg_map.len() {
                    return Err((i, CodeGenErrorReason::RegisterNotFound(v)));
                }
                if reg_map[v].is_some() {
                    return Err((i, CodeGenErrorReason::RegisterValueTaken(v)));
                }
                insert_current(current_map, v, machine_reg);
                reg_map.set(v, Some(machine_reg));
            },
        }
        i += 1;
    }
    Ok(())
}

/// Marking an unvisited block as visited leaves one block fewer to visit.
pub proof fn lemma_mark_seen(seen: Seq<bool>, q: int)
    requires
        0 <= q < seen.len(),
        !seen[q],
    ensures
        unseen_count(seen.update(q, true)) + 1 == unseen_count(seen),
    decreases seen.len(),
{
    let marked = seen.update(q, true);
    if q == seen.len() - 1 {
        assert(marked.drop_last() =~= seen.drop_last());
    } else {
        assert(marked.drop_last() =~= seen.drop_last().update(q, true));
        lemma_mark_seen(seen.drop_last(), q);
    }
}

/// With nothing visited, every block is left to visit.
pub proof fn lemma_unseen_all(n: nat)
    ensures
        unseen_count(Seq::new(n, |i: int| false)) == n,
    decreases n,
{
    if n > 0 {
        assert(Seq::new(n, |i: int| false).drop_last() =~= Seq::new((n - 1) as nat, |i: int| false));
        lemma_unseen_all((n - 1) as nat);
    }
}

fn copy_current(v: &Vec<(usize, MachineRegister)>) -> (out: Vec<(usize, MachineRegister)>)
    ensures
        out@ == v@,
{
    let mut out: Vec<(usize, MachineRegister)> = Vec::new();
    let mut i: usize = 0;
    while i < v.len()
        invariant
            i <= v.len(),
            out@ == v@.subrange(0, i as int),
        decreases v.len() - i,
    {
        out.push(v[i]);
        i += 1;
        assert(out@ =~= v@.subrange(0, i as int));
    }
    assert(v@.subrange(0, v.len() as int) =~= v@);
    out
}

fn copy_pool(v: &VecDeque<MachineRegister>) -> (out: VecDeque<MachineRegister>)
    ensures
        out@ == v@,
{
    let mut out: VecDeque<MachineRegister> = VecDeque::new();
    let mut i: usize = 0;
    while i < v.len()
        invariant
            i <= v.len(),
            out@ == v@.subrange(0, i as int),
        decreases v.len() - i,
    {
        out.push_back(v[i]);
        i += 1;
        assert(out@ =~= v@.subrange(0, i as int));
    }
    assert(v@.subrange(0, v.len() as int) =~= v@);
    out
}

/// Visits block `cur_idx` and what can be reached from it, depth first.
#[verifier::loop_isolation(false)]
fn build_register_map_inner(
    bbm: &BasicBlockManager,
    gq: &GraphQuery,
    cur_idx: BasicBlockIndex,
    reg_map: &mut Vec<Option<MachineRegister>>,
    current_map: Vec<(usize, MachineRegister)>,
    available_registers: VecDeque<MachineRegister>,
    seen: &mut Vec<bool>,
    Ghost(fuel): Ghost<nat>,
) -> (r: Result<(), CodeGenError>)
    requires
        gq.wf(),
        edges_in_range(bbm@.blocks),
        cur_idx.0 < bbm@.blocks.len(),
        old(seen)@.len() == bbm@.blocks.len(),
        unseen_count(old(seen)@) <= fuel,
    ensures
        match visit(
            fuel,
            bbm@.blocks,
            *gq,
            cur_idx.0,
            old(reg_map)@,
            old(seen)@,
            current_map@,
            available_registers@,
        ) {
            Ok((map, marks)) => r is Ok && final(reg_map)@ == map && final(seen)@ == marks,
            Err(e) => r == Err::<(), CodeGenError>(e),
        },
        r is Ok ==> final(seen)@.len() == old(seen)@.len() && unseen_count(final(seen)@)
            <= unseen_count(old(seen)@),
    decreases fuel,
{
    let q = cur_idx.0;
    if seen[q] {
        return Ok(());
    }
    proof {
        lemma_mark_seen(seen@, q as int);
    }
    seen.set(q, true);
    let mut current_map = current_map;
    let mut available_registers = available_registers;
    // free registers that are not used on this path
    release_dead(gq, &mut current_map, &mut available_registers, q, false);
    let block = bbm.get(cur_idx).unwrap();
    let ghost bv = bbm@.blocks[q as int];
    assert(block_edges_in_range(bv, bbm@.blocks.len()));
    match define_registers(block.instructions(), reg_map, &mut current_map, &mut available_registers) {
        Err((i, reason)) => {
            return Err(CodeGenError { block: q, instruction: i, reason });
        },
        Ok(()) => {},
    }
    // free registers that are not used on any path after
    release_dead(gq, &mut current_map, &mut available_registers, q, true);
    let exits = block.exits();
    let ghost map0 = reg_map@;
    let ghost seen0 = seen@;
    let mut k: usize = 0;
    while k < exits.len()
        invariant
            k <= exits.len(),
            gq.wf(),
            edges_in_range(bbm@.blocks),
            exits@ == bv.exits,
            block_edges_in_range(bv, bbm@.blocks.len()),
            seen@.len() == bbm@.blocks.len(),
            fuel >= 1,
            unseen_count(seen@) <= fuel - 1,
            unseen_count(seen@) <= unseen_count(seen0),
            visit_exits(
                (fuel - 1) as nat,
                bbm@.blocks,
                *gq,
                exits@,
                0,
                map0,
                seen0,
                current_map@,
                available_registers@,
            ) == visit_exits(
                (fuel - 1) as nat,
                bbm@.blocks,
                *gq,
                exits@,
                k as int,
                reg_map@,
                seen@,
                current_map@,
                available_registers@,
            ),
        decreases exits.len() - k,
    {
        let exit = exits[k];
        assert(bv.exits[k as int] < bbm@.blocks.len());
        match build_register_map_inner(
            bbm,
            gq,
            BasicBlockIndex(exit),
            reg_map,
            copy_current(&current_map),
            copy_pool(&available_registers),
            seen,
            Ghost((fuel - 1) as nat),
        ) {
            Err(e) => {
                return Err(e);
            },
            Ok(()) => {},
        }
        k += 1;
    }
    Ok(())
}

/// Assigns a machine register to every virtual register that a block reached
/// from the entry defines. Spilling is not supported: the walk fails where a
/// definition finds the free pool empty.
pub fn compute_register_map(bbm: &BasicBlockManager, gq: &GraphQuery) -> (r: Result<
    Vec<Option<MachineRegister>>,
    CodeGenError,
>)
    requires
        gq.wf(),
        edges_in_range(bbm@.blocks),
        bbm@.start < bbm@.blocks.len(),
    ensures
        match allocation(bbm@.blocks, bbm@.start, *gq, gq.define_map@.len()) {
            Ok(map) => r is Ok && r->Ok_0@ == map,
            Err(e) => r == Err::<Vec<Option<MachineRegister>>, CodeGenError>(e),
        },
{
    let available_registers = new_pool();
    let current_mapping: Vec<(usize, MachineRegister)> = Vec::new();
    let mut out: Vec<Option<MachineRegister>> = Vec::new();
    let nregs = gq.define_map.len();
    let mut i: usize = 0;
    while i < nregs
        invariant
            i <= nregs,
            out@ == Seq::new(i as nat, |j: int| None::<MachineRegister>),
        decreases nregs - i,
    {
        out.push(None);
        i += 1;
        assert(out@ =~= Seq::new(i as nat, |j: int| None::<MachineRegister>));
    }
    let n = bbm.len();
    let mut seen: Vec<bool> = Vec::new();
    let mut j: usize = 0;
    while j < n
        invariant
            j <= n,
            seen@ == Seq::new(j as nat, |x: int| false),
        decreases n - j,
    {
        seen.push(false);
        j += 1;
        assert(seen@ =~= Seq::new(j as nat, |x: int| false));
    }
    proof {
        lemma_unseen_all(n as nat);
    }
    match build_register_map_inner(
        bbm,
        gq,
        bbm.start(),
        &mut out,
        current_mapping,
        available_registers,
        &mut seen,
        Ghost(n as nat),
    ) {
        Err(e) => Err(e),
        Ok(()) => Ok(out),
    }
}


/// Whether `r` is the emitted program `want` says: the same operations with the
/// entry behind the constants section, or the same error.
pub open spec fn emits(r: Result<Program, CodeGenError>, want: Result<Seq<AsmOp>, CodeGenError>, constants: nat) -> bool {
    match want {
        Ok(all) => r is Ok && r->Ok_0.ops@ == all && r->Ok_0.entry == 2 * constants,
        Err(e) => r == Err::<Program, CodeGenError>(e),
    }
}

/// The code of a program under the liveness analyses `gq`: the registers are
/// assigned, then every instruction is lowered.
pub open spec fn generated(ctx: ContextView, gq: GraphQuery) -> Result<Seq<AsmOp>, CodeGenError> {
    match allocation(ctx.manager.blocks, ctx.manager.start, gq, gq.define_map@.len()) {
        Err(e) => Err(e),
        Ok(map) => program_ops(ctx, map),
    }
}

/// What keeps the analyses from being built, if anything: an edge out of range,
/// no entry block, an exhausted register counter, or a register fault.
pub open spec fn analysis_error(m: ManagerView) -> Option<CodeGenError> {
    if first_invalid_edge(m.blocks, 0) is Some {
        first_invalid_edge(m.blocks, 0)
    } else if m.start >= m.blocks.len() {
        Some(program_error(CodeGenErrorReason::InvalidEdge(m.start)))
    } else if m.register_count() == usize::MAX {
        Some(program_error(CodeGenErrorReason::OutOfRegisters))
    } else {
        first_register_fault(m.blocks, m.register_count(), 0, 0)
    }
}

/// Assigns the registers under the analyses `gq` and lowers the program.
pub fn generate_code_with(ctx: &Context, gq: &GraphQuery) -> (r: Result<Program, CodeGenError>)
    requires
        gq.wf(),
        edges_in_range(ctx@.manager.blocks),
        ctx@.manager.start < ctx@.manager.blocks.len(),
    ensures
        emits(r, generated(ctx@, *gq), ctx@.constants.len()),
{
    match compute_register_map(ctx.blocks(), gq) {
        Err(e) => Err(e),
        Ok(register_map) => emit_program(ctx, &register_map),
    }
}

/// Builds the liveness analyses of a program.
pub fn analyze(bbm: &BasicBlockManager) -> (r: Result<GraphQuery, CodeGenError>)
    ensures
        match analysis_error(bbm@) {
            Some(e) => r == Err::<GraphQuery, CodeGenError>(e),
            None => r is Ok && analyses(r->Ok_0, bbm@.blocks, bbm@.start as int) && r->Ok_0.describes(
                bbm@.blocks,
                bbm@.register_count(),
            ),
        },
{
    if let Some(e) = bbm.first_invalid_edge() {
        return Err(e);
    }
    proof {
        lemma_edges_in_range(bbm@.blocks);
    }
    let start = bbm.start().0;
    if start >= bbm.len() {
        return Err(
            CodeGenError { block: 0, instruction: 0, reason: CodeGenErrorReason::InvalidEdge(start) },
        );
    }
    if bbm.register_count() == usize::MAX {
        return Err(
            CodeGenError { block: 0, instruction: 0, reason: CodeGenErrorReason::OutOfRegisters },
        );
    }
    let gd = compute_graph(bbm);
    GraphQuery::new(gd, bbm)
}

/// Generates the machine operations of a finalized program: the constants
/// section, the prologue, and the blocks in index order, each behind its label.
///
/// Fails where the context is not finalized, where the analyses cannot be built,
/// where the registers run out, or at the first instruction without a lowering.
/// Else the result is the code of the program under its analyses; all analyses
/// of one program give the same code.
pub fn generate_code(ctx: &Context) -> (r: Result<Program, CodeGenError>)
    ensures
        !ctx@.finalized ==> r == Err::<Program, CodeGenError>(
            program_error(CodeGenErrorReason::NotFinalized),
        ),
        ctx@.finalized ==> match analysis_error(ctx@.manager) {
            Some(e) => r == Err::<Program, CodeGenError>(e),
            None => (exists|gq: GraphQuery|
                #[trigger] analyses(gq, ctx@.manager.blocks, ctx@.manager.start as int)
                    && gq.describes(ctx@.manager.blocks, ctx@.manager.register_count()))
                && forall|gq: GraphQuery|
                analyses(gq, ctx@.manager.blocks, ctx@.manager.start as int) && gq.describes(
                    ctx@.manager.blocks,
                    ctx@.manager.register_count(),
                ) ==> #[trigger] emits(r, generated(ctx@, gq), ctx@.constants.len()),
        },
{
    if !ctx.is_finalized() {
        return Err(
            CodeGenError { block: 0, instruction: 0, reason: CodeGenErrorReason::NotFinalized },
        );
    }
    match analyze(ctx.blocks()) {
        Err(e) => Err(e),
        Ok(gq) => {
            proof {
                lemma_edges_in_range(ctx@.manager.blocks);
            }
            let r = generate_code_with(ctx, &gq);
            proof {
                assert(analyses(gq, ctx@.manager.blocks, ctx@.manager.start as int));
                assert forall|other: GraphQuery|
                    analyses(other, ctx@.manager.blocks, ctx@.manager.start as int)
                        && other.describes(
                        ctx@.manager.blocks,
                        ctx@.manager.register_count(),
                    ) implies #[trigger] emits(r, generated(ctx@, other), ctx@.constants.len()) by {
                    lemma_generated_agrees(ctx@, gq, other);
                }
            }
            r
        },
    }
}


/// Whether the current map holds machine register `m`.
pub open spec fn in_current(cur: Seq<(usize, MachineRegister)>, m: MachineRegister) -> bool {
    exists|i: int| 0 <= i < cur.len() && (#[trigger] cur[i]).1 == m
}

/// Whether no machine register is held twice: the registers of the current map
/// differ from each other and from those in the free pool, and those differ
/// from each other.
pub open spec fn kept_apart(cur: Seq<(usize, MachineRegister)>, pool: Seq<MachineRegister>) -> bool {
    &&& forall|i: int, j: int|
        #![trigger cur[i], cur[j]]
        0 <= i < j < cur.len() ==> cur[i].1 != cur[j].1
    &&& forall|i: int, j: int|
        #![trigger pool[i], pool[j]]
        0 <= i < j < pool.len() ==> pool[i] != pool[j]
    &&& forall|i: int, j: int|
        #![trigger cur[i], pool[j]]
        0 <= i < cur.len() && 0 <= j < pool.len() ==> cur[i].1 != pool[j]
}

/// At the start of an allocation no machine register is held twice.
pub proof fn lemma_initial_pool_apart()
    ensures
        kept_apart(Seq::empty(), initial_pool()),
        initial_pool().len() == 10,
        forall|j: int| 0 <= j < 10 ==> (#[trigger] initial_pool()[j]).allocatable(),
{
}

/// Releasing registers moves machine registers from the current map to the free
/// pool and holds none twice: two values that stay live never share one.
pub proof fn lemma_release_apart(
    gq: GraphQuery,
    cur: Seq<(usize, MachineRegister)>,
    pool: Seq<MachineRegister>,
    q: int,
    at_exit: bool,
)
    requires
        kept_apart(cur, pool),
    ensures
        kept_apart(release(gq, cur, pool, q, at_exit).0, release(gq, cur, pool, q, at_exit).1),
        forall|m: MachineRegister|
            in_current(release(gq, cur, pool, q, at_exit).0, m) || release(
                gq,
                cur,
                pool,
                q,
                at_exit,
            ).1.contains(m) <==> in_current(cur, m) || pool.contains(m),
    decreases cur.len(),
{
    if cur.len() > 0 {
        let c = cur[0];
        let tail = cur.drop_first();
        assert forall|i: int| 0 <= i < tail.len() implies #[trigger] tail[i] == cur[i + 1] by {}
        assert forall|m: MachineRegister| in_current(cur, m) <==> c.1 == m || in_current(tail, m) by {
            if in_current(cur, m) {
                let i = choose|i: int| 0 <= i < cur.len() && (#[trigger] cur[i]).1 == m;
                if i > 0 {
                    assert(tail[i - 1].1 == m);
                }
            }
            if in_current(tail, m) {
                let i = choose|i: int| 0 <= i < tail.len() && (#[trigger] tail[i]).1 == m;
                assert(cur[i + 1].1 == m);
            }
            assert(cur[0].1 == c.1);
        }
        if live_at(gq, c.0 as int, q, at_exit) {
            assert(kept_apart(tail, pool)) by {
                assert forall|i: int, j: int|
                    #![trigger tail[i], tail[j]]
                    0 <= i < j < tail.len() implies tail[i].1 != tail[j].1 by {
                    assert(cur[i + 1].1 != cur[j + 1].1);
                }
                assert forall|i: int, j: int|
                    #![trigger tail[i], pool[j]]
                    0 <= i < tail.len() && 0 <= j < pool.len() implies tail[i].1 != pool[j] by {
                    assert(cur[i + 1].1 != pool[j]);
                }
            }
            lemma_release_apart(gq, tail, pool, q, at_exit);
            let rest = release(gq, tail, pool, q, at_exit);
            let kept = seq![c] + rest.0;
            assert(!in_current(tail, c.1)) by {
                if in_current(tail, c.1) {
                    let i = choose|i: int| 0 <= i < tail.len() && (#[trigger] tail[i]).1 == c.1;
                    assert(cur[0].1 != cur[i + 1].1);
                }
            }
            assert(!pool.contains(c.1)) by {
                if pool.contains(c.1) {
                    let j = choose|j: int| 0 <= j < pool.len() && pool[j] == c.1;
                    assert(cur[0].1 != pool[j]);
                }
            }
            assert(!in_current(rest.0, c.1) && !rest.1.contains(c.1));
            assert forall|i: int| 1 <= i < kept.len() implies #[trigger] kept[i] == rest.0[i - 1] by {}
            assert(kept[0] == c);
            assert forall|i: int, j: int|
                #![trigger kept[i], kept[j]]
                0 <= i < j < kept.len() implies kept[i].1 != kept[j].1 by {
                if i == 0 {
                    assert(rest.0[j - 1].1 == kept[j].1);
                } else {
                    assert(rest.0[i - 1].1 != rest.0[j - 1].1);
                }
            }
            assert forall|i: int, j: int|
                #![trigger kept[i], rest.1[j]]
                0 <= i < kept.len() && 0 <= j < rest.1.len() implies kept[i].1 != rest.1[j] by {
                if i == 0 {
                    assert(rest.1.contains(rest.1[j]));
                } else {
                    assert(rest.0[i - 1].1 != rest.1[j]);
                }
            }
            assert forall|m: MachineRegister| in_current(kept, m) <==> c.1 == m || in_current(
                rest.0,
                m,
            ) by {
                if in_current(kept, m) {
                    let i = choose|i: int| 0 <= i < kept.len() && (#[trigger] kept[i]).1 == m;
                    if i > 0 {
                        assert(rest.0[i - 1].1 == m);
                    }
                }
                if in_current(rest.0, m) {
                    let i = choose|i: int| 0 <= i < rest.0.len() && (#[trigger] rest.0[i]).1 == m;
                    assert(kept[i + 1].1 == m);
                }
                assert(kept[0].1 == c.1);
            }
            let out = release(gq, cur, pool, q, at_exit);
            assert(out == (kept, rest.1));
            assert forall|m: MachineRegister|
                in_current(out.0, m) || out.1.contains(m) <==> in_current(cur, m) || pool.contains(
                    m,
                ) by {
                assert(in_current(rest.0, m) || rest.1.contains(m) <==> in_current(tail, m)
                    || pool.contains(m));
                assert(in_current(kept, m) <==> c.1 == m || in_current(rest.0, m));
                assert(in_current(cur, m) <==> c.1 == m || in_current(tail, m));
            }
        } else {
            let more = pool.push(c.1);
            assert(kept_apart(tail, more)) by {
                assert forall|i: int, j: int|
                    #![trigger tail[i], tail[j]]
                    0 <= i < j < tail.len() implies tail[i].1 != tail[j].1 by {
                    assert(cur[i + 1].1 != cur[j + 1].1);
                }
                assert forall|i: int, j: int|
                    #![trigger more[i], more[j]]
                    0 <= i < j < more.len() implies more[i] != more[j] by {
                    if j == pool.len() {
                        assert(cur[0].1 != pool[i]);
                    } else {
                        assert(pool[i] != pool[j]);
                    }
                }
                assert forall|i: int, j: int|
                    #![trigger tail[i], more[j]]
                    0 <= i < tail.len() && 0 <= j < more.len() implies tail[i].1 != more[j] by {
                    if j == pool.len() {
                        assert(cur[0].1 != cur[i + 1].1);
                    } else {
                        assert(cur[i + 1].1 != pool[j]);
                    }
                }
            }
            lemma_release_apart(gq, tail, more, q, at_exit);
            assert forall|m: MachineRegister| more.contains(m) <==> pool.contains(m) || m == c.1 by {
                if more.contains(m) {
                    let j = choose|j: int| 0 <= j < more.len() && more[j] == m;
                    if j < pool.len() {
                        assert(pool[j] == m);
                    }
                }
                if pool.contains(m) {
                    let j = choose|j: int| 0 <= j < pool.len() && pool[j] == m;
                    assert(more[j] == m);
                }
                assert(more[pool.len() as int] == c.1);
            }
            let out = release(gq, cur, pool, q, at_exit);
            let inner = release(gq, tail, more, q, at_exit);
            assert(out == inner);
            assert forall|m: MachineRegister|
                in_current(out.0, m) || out.1.contains(m) <==> in_current(cur, m) || pool.contains(
                    m,
                ) by {
                assert(in_current(inner.0, m) || inner.1.contains(m) <==> in_current(tail, m)
                    || more.contains(m));
                assert(more.contains(m) <==> pool.contains(m) || m == c.1);
                assert(in_current(cur, m) <==> c.1 == m || in_current(tail, m));
            }
        }
    }
}

/// Putting a machine register that is not in the current map into it keeps the
/// registers of the map apart.
pub proof fn lemma_insert_sorted(cur: Seq<(usize, MachineRegister)>, v: usize, m: MachineRegister)
    ensures
        insert_sorted(cur, v, m).len() == cur.len() + 1,
        forall|x: MachineRegister|
            #![trigger in_current(insert_sorted(cur, v, m), x)]
            in_current(insert_sorted(cur, v, m), x) <==> in_current(cur, x) || x == m,
        forall|pool: Seq<MachineRegister>|
            kept_apart(cur, pool) && !in_current(cur, m) && !pool.contains(m) ==> #[trigger] kept_apart(
                insert_sorted(cur, v, m),
                pool,
            ),
    decreases cur.len(),
{
    let out = insert_sorted(cur, v, m);
    if cur.len() == 0 {
        assert(out =~= seq![(v, m)]);
        assert(out[0].1 == m);
        assert forall|x: MachineRegister| in_current(out, x) <==> in_current(cur, x) || x == m by {
            if in_current(out, x) {
                let i = choose|i: int| 0 <= i < out.len() && (#[trigger] out[i]).1 == x;
                assert(i == 0);
            }
            if x == m {
                assert(out[0].1 == x);
            }
        }
        assert forall|pool: Seq<MachineRegister>|
            kept_apart(cur, pool) && !in_current(cur, m) && !pool.contains(m) implies #[trigger] kept_apart(
            out,
            pool,
        ) by {
            assert forall|i: int, j: int|
                #![trigger out[i], pool[j]]
                0 <= i < out.len() && 0 <= j < pool.len() implies out[i].1 != pool[j] by {
                assert(pool.contains(pool[j]));
            }
        }
    } else if cur[0].0 > v {
        assert(out =~= seq![(v, m)] + cur);
        assert forall|i: int| 1 <= i < out.len() implies #[trigger] out[i] == cur[i - 1] by {}
        assert(out[0] == (v, m));
        assert forall|x: MachineRegister| in_current(out, x) <==> in_current(cur, x) || x == m by {
            if in_current(out, x) {
                let i = choose|i: int| 0 <= i < out.len() && (#[trigger] out[i]).1 == x;
                if i > 0 {
                    assert(cur[i - 1].1 == x);
                }
            }
            if in_current(cur, x) {
                let i = choose|i: int| 0 <= i < cur.len() && (#[trigger] cur[i]).1 == x;
                assert(out[i + 1].1 == x);
            }
            assert(out[0].1 == m);
        }
        assert forall|pool: Seq<MachineRegister>|
            kept_apart(cur, pool) && !in_current(cur, m) && !pool.contains(m) implies #[trigger] kept_apart(
            out,
            pool,
        ) by {
            assert forall|i: int, j: int|
                #![trigger out[i], out[j]]
                0 <= i < j < out.len() implies out[i].1 != out[j].1 by {
                if i == 0 {
                    assert(cur[j - 1].1 == out[j].1);
                } else {
                    assert(cur[i - 1].1 != cur[j - 1].1);
                }
            }
            assert forall|i: int, j: int|
                #![trigger out[i], pool[j]]
                0 <= i < out.len() && 0 <= j < pool.len() implies out[i].1 != pool[j] by {
                if i == 0 {
                    assert(pool.contains(pool[j]));
                } else {
                    assert(cur[i - 1].1 != pool[j]);
                }
            }
        }
    } else {
        let tail = cur.drop_first();
        let rest = insert_sorted(tail, v, m);
        lemma_insert_sorted(tail, v, m);
        assert(out =~= seq![cur[0]] + rest);
        assert forall|i: int| 1 <= i < out.len() implies #[trigger] out[i] == rest[i - 1] by {}
        assert(out[0] == cur[0]);
        assert forall|i: int| 0 <= i < tail.len() implies #[trigger] tail[i] == cur[i + 1] by {}
        assert forall|x: MachineRegister| in_current(cur, x) <==> cur[0].1 == x || in_current(tail, x) by {
            if in_current(cur, x) {
                let i = choose|i: int| 0 <= i < cur.len() && (#[trigger] cur[i]).1 == x;
                if i > 0 {
                    assert(tail[i - 1].1 == x);
                }
            }
            if in_current(tail, x) {
                let i = choose|i: int| 0 <= i < tail.len() && (#[trigger] tail[i]).1 == x;
                assert(cur[i + 1].1 == x);
            }
        }
        assert forall|x: MachineRegister| in_current(out, x) <==> in_current(cur, x) || x == m by {
            if in_current(out, x) {
                let i = choose|i: int| 0 <= i < out.len() && (#[trigger] out[i]).1 == x;
                if i > 0 {
                    assert(rest[i - 1].1 == x);
                    assert(in_current(rest, x));
                }
            }
            if in_current(rest, x) {
                let i = choose|i: int| 0 <= i < rest.len() && (#[trigger] rest[i]).1 == x;
                assert(out[i + 1].1 == x);
            }
            assert(out[0].1 == cur[0].1);
            assert(in_current(rest, x) <==> in_current(tail, x) || x == m);
            assert(in_current(cur, x) <==> cur[0].1 == x || in_current(tail, x));
            assert(in_current(out, x) <==> out[0].1 == x || in_current(rest, x));
        }
        assert forall|pool: Seq<MachineRegister>|
            kept_apart(cur, pool) && !in_current(cur, m) && !pool.contains(m) implies #[trigger] kept_apart(
            out,
            pool,
        ) by {
            assert(kept_apart(tail, pool)) by {
                assert forall|i: int, j: int|
                    #![trigger tail[i], tail[j]]
                    0 <= i < j < tail.len() implies tail[i].1 != tail[j].1 by {
                    assert(cur[i + 1].1 != cur[j + 1].1);
                }
                assert forall|i: int, j: int|
                    #![trigger tail[i], pool[j]]
                    0 <= i < tail.len() && 0 <= j < pool.len() implies tail[i].1 != pool[j] by {
                    assert(cur[i + 1].1 != pool[j]);
                }
            }
            assert(!in_current(tail, m));
            assert(kept_apart(rest, pool));
            assert forall|i: int, j: int|
                #![trigger out[i], out[j]]
                0 <= i < j < out.len() implies out[i].1 != out[j].1 by {
                if i == 0 {
                    assert(rest[j - 1].1 == out[j].1);
                    assert(in_current(rest, out[j].1));
                    if in_current(tail, out[j].1) {
                        let k = choose|k: int| 0 <= k < tail.len() && (#[trigger] tail[k]).1 == out[j].1;
                        assert(cur[0].1 != cur[k + 1].1);
                    } else {
                        assert(out[j].1 == m);
                        assert(cur[0].1 != m);
                    }
                } else {
                    assert(rest[i - 1].1 != rest[j - 1].1);
                }
            }
            assert forall|i: int, j: int|
                #![trigger out[i], pool[j]]
                0 <= i < out.len() && 0 <= j < pool.len() implies out[i].1 != pool[j] by {
                if i == 0 {
                    assert(cur[0].1 != pool[j]);
                } else {
                    assert(rest[i - 1].1 != pool[j]);
                }
            }
        }
    }
}

/// Giving machine registers to the definitions of a block holds none twice: two
/// values that are live at once never share a machine register.
pub proof fn lemma_allocate_apart(code: Seq<IR>, from: int, a: Assignment)
    requires
        kept_apart(a.current, a.pool),
        0 <= from,
    ensures
        allocate_definitions(code, from, a) matches Ok(done) ==> kept_apart(done.current, done.pool),
    decreases code.len() - from,
{
    if from < code.len() {
        match defined_register(code[from]) {
            None => {
                lemma_allocate_apart(code, from + 1, a);
            },
            Some(v) => {
                if a.pool.len() > 0 && v < a.map.len() && a.map[v as int] is None {
                    let m = a.pool[0];
                    let rest = a.pool.drop_first();
                    let next = Assignment {
                        current: insert_sorted(a.current, v, m),
                        pool: rest,
                        map: a.map.update(v as int, Some(m)),
                    };
                    assert forall|j: int| 0 <= j < rest.len() implies #[trigger] rest[j] == a.pool[j + 1] by {}
                    assert(kept_apart(a.current, rest)) by {
                        assert forall|i: int, j: int|
                            #![trigger rest[i], rest[j]]
                            0 <= i < j < rest.len() implies rest[i] != rest[j] by {
                            assert(a.pool[i + 1] != a.pool[j + 1]);
                        }
                        assert forall|i: int, j: int|
                            #![trigger a.current[i], rest[j]]
                            0 <= i < a.current.len() && 0 <= j < rest.len() implies a.current[i].1
                            != rest[j] by {
                            assert(a.current[i].1 != a.pool[j + 1]);
                        }
                    }
                    assert(!in_current(a.current, m)) by {
                        if in_current(a.current, m) {
                            let i = choose|i: int| 0 <= i < a.current.len() && (#[trigger] a.current[i]).1 == m;
                            assert(a.current[i].1 != a.pool[0]);
                        }
                    }
                    assert(!rest.contains(m)) by {
                        if rest.contains(m) {
                            let j = choose|j: int| 0 <= j < rest.len() && rest[j] == m;
                            assert(a.pool[0] != a.pool[j + 1]);
                        }
                    }
                    lemma_insert_sorted(a.current, v, m);
                    assert(kept_apart(insert_sorted(a.current, v, m), rest));
                    lemma_allocate_apart(code, from + 1, next);
                }
            },
        }
    }
}

/// The registers of a machine that the arithmetic operations work on.
pub type RegisterFile = Map<MachineRegister, int>;

/// Two to the power of 64: registers hold values below it.
pub open spec fn word() -> int {
    0x1_0000_0000_0000_0000
}

/// What one operation does to the registers. Only the operations that the
/// lowering of arithmetic on registers and immediates emits change them here.
pub open spec fn run_op(op: AsmOp, regs: RegisterFile) -> RegisterFile {
    match op {
        AsmOp::Clear(r) => regs.insert(r, 0),
        AsmOp::MovImm { dest, bits, value } => if bits >= 64 {
            regs.insert(dest, value as int)
        } else if bits >= 32 {
            regs.insert(dest, (value as int) % 0x1_0000_0000)
        } else if bits == 16 {
            regs.insert(dest, regs[dest] - regs[dest] % 0x1_0000 + (value as int) % 0x1_0000)
        } else {
            regs.insert(dest, regs[dest] - regs[dest] % 0x100 + (value as int) % 0x100)
        },
        AsmOp::MovRR { dest, src } => regs.insert(dest, regs[src]),
        AsmOp::AddRR { dest, src } => regs.insert(dest, (regs[dest] + regs[src]) % word()),
        AsmOp::SubRR { dest, src } => regs.insert(dest, (regs[dest] - regs[src]) % word()),
        _ => regs,
    }
}

/// What a sequence of operations does to the registers.
pub open spec fn run(ops: Seq<AsmOp>, regs: RegisterFile) -> RegisterFile
    decreases ops.len(),
{
    if ops.len() == 0 {
        regs
    } else {
        run(ops.drop_first(), run_op(ops[0], regs))
    }
}

/// The move of an immediate leaves the immediate, cut to the operand size and
/// zero-extended, in the register, and writes no other register.
pub proof fn lemma_mov_imm(dest: MachineRegister, value: u64, ty: PrimitiveValue, regs: RegisterFile)
    ensures
        run(mov_imm_ops(dest, value, ty), regs)[dest] == (value as int) % modulus(ty),
        forall|other: MachineRegister| other != dest ==> run(mov_imm_ops(dest, value, ty), regs)[other] == regs[other],
{
    let ops = mov_imm_ops(dest, value, ty);
    let cut = imm_bits(ty, value as int);
    assert(cut == (value as int) % modulus(ty));
    reveal_with_fuel(run, 3);
    if ty.bits() < 64 {
        assert(ops.drop_first() =~= seq![AsmOp::MovImm { dest, bits: ty.bits() as u8, value: cut }]);
        assert(ops.drop_first().drop_first() =~= Seq::<AsmOp>::empty());
    } else {
        assert(ops.drop_first() =~= Seq::<AsmOp>::empty());
    }
}

/// Folding: where both operands of an addition or subtraction are immediates of
/// one type, the one move that is emitted leaves in the destination what the
/// unfolded code computes, at the operand size: the code that moves the first
/// immediate and then adds or subtracts a register holding the second.
pub proof fn lemma_fold_round_trip(
    is_add: bool,
    ty: PrimitiveValue,
    v1: usize,
    v2: usize,
    dest: MachineRegister,
    src: MachineRegister,
    regs: RegisterFile,
)
    requires
        dest != src,
        regs[src] == imm_bits(ty, v2 as int),
    ensures
        run(mov_imm_ops(dest, fold(is_add, ty, v1, v2), ty), regs)[dest] == run(
            mov_imm_ops(dest, imm_bits(ty, v1 as int), ty) + seq![arith_rr(is_add, dest, src)],
            regs,
        )[dest] % modulus(ty),
{
    let m = modulus(ty);
    let a = imm_bits(ty, v1 as int);
    let b = imm_bits(ty, v2 as int);
    let folded = fold(is_add, ty, v1, v2);
    let first = mov_imm_ops(dest, a, ty);
    let last = seq![arith_rr(is_add, dest, src)];
    lemma_mov_imm(dest, folded, ty, regs);
    lemma_mov_imm(dest, a, ty, regs);
    lemma_run_concat(first, last, regs);
    let mid = run(first, regs);
    let x: int = if is_add {
        v1 + v2
    } else {
        v1 - v2
    };
    lemma_cut_twice(x, m);
    lemma_cut_twice(v1 as int, m);
    assert(run(mov_imm_ops(dest, folded, ty), regs)[dest] == x % m);
    assert(mid[dest] == a && mid[src] == b);
    lemma_run_one(arith_rr(is_add, dest, src), mid);
    lemma_fold_arith(is_add, v1 as int, v2 as int, m, word() / m);
}

/// Running one operation.
proof fn lemma_run_one(op: AsmOp, regs: RegisterFile)
    ensures
        run(seq![op], regs) == run_op(op, regs),
{
    reveal_with_fuel(run, 2);
    assert(seq![op].drop_first() =~= Seq::<AsmOp>::empty());
}

/// Cutting twice is cutting once.
proof fn lemma_cut_twice(x: int, m: int)
    requires
        m > 0,
    ensures
        0 <= x % m < m,
        (x % m) % m == x % m,
{
    vstd::arithmetic::div_mod::lemma_mod_bound(x, m);
    vstd::arithmetic::div_mod::lemma_small_mod((x % m) as nat, m as nat);
}

/// Adding or subtracting cut values in a word and cutting the result is cutting
/// the sum or the difference.
proof fn lemma_fold_arith(is_add: bool, v1: int, v2: int, m: int, k: int)
    requires
        m > 0,
        k > 0,
    ensures
        is_add ==> (((v1 % m) + (v2 % m)) % (m * k)) % m == (v1 + v2) % m,
        !is_add ==> (((v1 % m) - (v2 % m)) % (m * k)) % m == (v1 - v2) % m,
{
    if is_add {
        vstd::arithmetic::div_mod::lemma_mod_mod((v1 % m) + (v2 % m), m, k);
        vstd::arithmetic::div_mod::lemma_add_mod_noop(v1, v2, m);
    } else {
        vstd::arithmetic::div_mod::lemma_mod_mod((v1 % m) - (v2 % m), m, k);
        vstd::arithmetic::div_mod::lemma_sub_mod_noop(v1, v2, m);
    }
}

/// Running two sequences one after the other is running their concatenation.
pub proof fn lemma_run_concat(first: Seq<AsmOp>, last: Seq<AsmOp>, regs: RegisterFile)
    ensures
        run(first + last, regs) == run(last, run(first, regs)),
    decreases first.len(),
{
    if first.len() == 0 {
        assert(first + last =~= last);
    } else {
        assert((first + last).drop_first() =~= first.drop_first() + last);
        lemma_run_concat(first.drop_first(), last, run_op(first[0], regs));
    }
}

/// Jump identity: a branch on an immediate is decided when the code is
/// generated. On equality with zero the immediate 0 takes the first target and
/// every other immediate the second; on inequality it is the other way round.
pub proof fn lemma_jump_identity(
    ty: PrimitiveValue,
    value: usize,
    t: BasicBlockIndex,
    f: BasicBlockIndex,
    regs: Seq<Option<MachineRegister>>,
    constants: Seq<Seq<u8>>,
    types: Seq<Option<PrimitiveValue>>,
)
    ensures
        lower(
            IR::JumpIfEqual {
                src_register: Value::Immediate { _type: ty, value },
                true_bb_idx: t,
                false_bb_idx: f,
            },
            regs,
            constants,
            types,
        ) == Ok::<Seq<AsmOp>, CodeGenErrorReason>(
            seq![
                AsmOp::Jmp(
                    Label::Block(
                        if imm_bits(ty, value as int) == 0 {
                            t.0
                        } else {
                            f.0
                        },
                    ),
                ),
            ],
        ),
        lower(
            IR::JumpIfNotEqual {
                src_register: Value::Immediate { _type: ty, value },
                true_bb_idx: t,
                false_bb_idx: f,
            },
            regs,
            constants,
            types,
        ) == Ok::<Seq<AsmOp>, CodeGenErrorReason>(
            seq![
                AsmOp::Jmp(
                    Label::Block(
                        if imm_bits(ty, value as int) == 0 {
                            f.0
                        } else {
                            t.0
                        },
                    ),
                ),
            ],
        ),
        value == 0 ==> imm_bits(ty, value as int) == 0,
{
}


/// Whether `after` assigns what `before` assigns, and maybe more.
pub open spec fn extends(before: Seq<Option<MachineRegister>>, after: Seq<Option<MachineRegister>>) -> bool {
    &&& after.len() == before.len()
    &&& forall|v: int| 0 <= v < before.len() && (#[trigger] before[v]) is Some ==> after[v] == before[v]
}

/// Giving machine registers to definitions leaves every earlier assignment as it is.
pub proof fn lemma_allocate_extends(code: Seq<IR>, from: int, a: Assignment)
    requires
        0 <= from,
    ensures
        allocate_definitions(code, from, a) matches Ok(done) ==> extends(a.map, done.map),
    decreases code.len() - from,
{
    if from < code.len() {
        match defined_register(code[from]) {
            None => {
                lemma_allocate_extends(code, from + 1, a);
            },
            Some(v) => {
                if a.pool.len() > 0 && v < a.map.len() && a.map[v as int] is None {
                    let next = Assignment {
                        current: insert_sorted(a.current, v, a.pool[0]),
                        pool: a.pool.drop_first(),
                        map: a.map.update(v as int, Some(a.pool[0])),
                    };
                    lemma_allocate_extends(code, from + 1, next);
                    if allocate_definitions(code, from, a) is Ok {
                        let done = allocate_definitions(code, from, a)->Ok_0;
                        assert forall|w: int|
                            0 <= w < a.map.len() && (#[trigger] a.map[w]) is Some implies done.map[w]
                            == a.map[w] by {
                            assert(next.map[w] == a.map[w]);
                            assert(next.map[w] is Some);
                        }
                    }
                }
            },
        }
    }
}

/// The walk assigns each virtual register one machine register for good: what
/// is assigned when a block is entered is still assigned, to the same machine
/// register, when the walk comes back from it.
pub proof fn lemma_visit_extends(
    fuel: nat,
    blocks: Seq<BlockView>,
    gq: GraphQuery,
    q: usize,
    map: Seq<Option<MachineRegister>>,
    seen: Seq<bool>,
    current: Seq<(usize, MachineRegister)>,
    pool: Seq<MachineRegister>,
)
    ensures
        visit(fuel, blocks, gq, q, map, seen, current, pool) matches Ok(out) ==> extends(map, out.0),
    decreases fuel, 0nat,
{
    if fuel == 0 || q >= blocks.len() || q >= seen.len() || seen[q as int] {
    } else {
        let entered = release(gq, current, pool, q as int, false);
        let start = Assignment { current: entered.0, pool: entered.1, map };
        lemma_allocate_extends(blocks[q as int].code, 0, start);
        match allocate_definitions(blocks[q as int].code, 0, start) {
            Err(_) => {},
            Ok(a) => {
                let left = release(gq, a.current, a.pool, q as int, true);
                lemma_visit_exits_extends(
                    (fuel - 1) as nat,
                    blocks,
                    gq,
                    blocks[q as int].exits,
                    0,
                    a.map,
                    seen.update(q as int, true),
                    left.0,
                    left.1,
                );
            },
        }
    }
}

/// The walk into the exits of a block leaves every earlier assignment as it is.
pub proof fn lemma_visit_exits_extends(
    fuel: nat,
    blocks: Seq<BlockView>,
    gq: GraphQuery,
    exits: Seq<usize>,
    k: int,
    map: Seq<Option<MachineRegister>>,
    seen: Seq<bool>,
    current: Seq<(usize, MachineRegister)>,
    pool: Seq<MachineRegister>,
)
    ensures
        visit_exits(fuel, blocks, gq, exits, k, map, seen, current, pool) matches Ok(out)
            ==> extends(map, out.0),
    decreases fuel, 1 + exits.len() - k,
{
    if k < 0 || k >= exits.len() {
    } else {
        lemma_visit_extends(fuel, blocks, gq, exits[k], map, seen, current, pool);
        match visit(fuel, blocks, gq, exits[k], map, seen, current, pool) {
            Err(_) => {},
            Ok((map2, seen2)) => {
                lemma_visit_exits_extends(fuel, blocks, gq, exits, k + 1, map2, seen2, current, pool);
            },
        }
    }
}


/// Whether two analyses answer every liveness query alike.
pub open spec fn same_liveness(gq1: GraphQuery, gq2: GraphQuery) -> bool {
    &&& forall|r: int, q: int| #[trigger] gq1.live_in(r, q) == gq2.live_in(r, q)
    &&& forall|r: int, q: int| #[trigger] gq1.live_out(r, q) == gq2.live_out(r, q)
}

/// Releasing registers depends on the analyses through the liveness queries only.
pub proof fn lemma_release_agrees(
    gq1: GraphQuery,
    gq2: GraphQuery,
    cur: Seq<(usize, MachineRegister)>,
    pool: Seq<MachineRegister>,
    q: int,
    at_exit: bool,
)
    requires
        same_liveness(gq1, gq2),
    ensures
        release(gq1, cur, pool, q, at_exit) == release(gq2, cur, pool, q, at_exit),
    decreases cur.len(),
{
    if cur.len() > 0 {
        assert(gq1.live_in(cur[0].0 as int, q) == gq2.live_in(cur[0].0 as int, q));
        assert(gq1.live_out(cur[0].0 as int, q) == gq2.live_out(cur[0].0 as int, q));
        lemma_release_agrees(gq1, gq2, cur.drop_first(), pool, q, at_exit);
        lemma_release_agrees(gq1, gq2, cur.drop_first(), pool.push(cur[0].1), q, at_exit);
    }
}

/// The walk depends on the analyses through the liveness queries only.
pub proof fn lemma_visit_agrees(
    gq1: GraphQuery,
    gq2: GraphQuery,
    fuel: nat,
    blocks: Seq<BlockView>,
    q: usize,
    map: Seq<Option<MachineRegister>>,
    seen: Seq<bool>,
    current: Seq<(usize, MachineRegister)>,
    pool: Seq<MachineRegister>,
)
    requires
        same_liveness(gq1, gq2),
    ensures
        visit(fuel, blocks, gq1, q, map, seen, current, pool) == visit(
            fuel,
            blocks,
            gq2,
            q,
            map,
            seen,
            current,
            pool,
        ),
    decreases fuel, 0nat,
{
    if fuel == 0 || q >= blocks.len() || q >= seen.len() || seen[q as int] {
    } else {
        lemma_release_agrees(gq1, gq2, current, pool, q as int, false);
        let entered = release(gq1, current, pool, q as int, false);
        match allocate_definitions(
            blocks[q as int].code,
            0,
            Assignment { current: entered.0, pool: entered.1, map },
        ) {
            Err(_) => {},
            Ok(a) => {
                lemma_release_agrees(gq1, gq2, a.current, a.pool, q as int, true);
                let left = release(gq1, a.current, a.pool, q as int, true);
                lemma_visit_exits_agrees(
                    gq1,
                    gq2,
                    (fuel - 1) as nat,
                    blocks,
                    blocks[q as int].exits,
                    0,
                    a.map,
                    seen.update(q as int, true),
                    left.0,
                    left.1,
                );
            },
        }
    }
}

/// The walk into the exits depends on the analyses through the liveness queries only.
pub proof fn lemma_visit_exits_agrees(
    gq1: GraphQuery,
    gq2: GraphQuery,
    fuel: nat,
    blocks: Seq<BlockView>,
    exits: Seq<usize>,
    k: int,
    map: Seq<Option<MachineRegister>>,
    seen: Seq<bool>,
    current: Seq<(usize, MachineRegister)>,
    pool: Seq<MachineRegister>,
)
    requires
        same_liveness(gq1, gq2),
    ensures
        visit_exits(fuel, blocks, gq1, exits, k, map, seen, current, pool) == visit_exits(
            fuel,
            blocks,
            gq2,
            exits,
            k,
            map,
            seen,
            current,
            pool,
        ),
    decreases fuel, 1 + exits.len() - k,
{
    if k < 0 || k >= exits.len() {
    } else {
        lemma_visit_agrees(gq1, gq2, fuel, blocks, exits[k], map, seen, current, pool);
        match visit(fuel, blocks, gq1, exits[k], map, seen, current, pool) {
            Err(_) => {},
            Ok((map2, seen2)) => {
                lemma_visit_exits_agrees(gq1, gq2, fuel, blocks, exits, k + 1, map2, seen2, current, pool);
            },
        }
    }
}

/// The code of a program does not depend on which analyses of it are used.
pub proof fn lemma_generated_agrees(ctx: ContextView, gq1: GraphQuery, gq2: GraphQuery)
    requires
        analyses(gq1, ctx.manager.blocks, ctx.manager.start as int),
        analyses(gq2, ctx.manager.blocks, ctx.manager.start as int),
        gq1.describes(ctx.manager.blocks, ctx.manager.register_count()),
        gq2.describes(ctx.manager.blocks, ctx.manager.register_count()),
    ensures
        generated(ctx, gq1) == generated(ctx, gq2),
{
    let blocks = ctx.manager.blocks;
    lemma_analyses_agree(gq1, gq2, blocks, ctx.manager.start as int, ctx.manager.register_count());
    lemma_visit_agrees(
        gq1,
        gq2,
        blocks.len(),
        blocks,
        ctx.manager.start,
        Seq::new(gq1.define_map@.len(), |i: int| None::<MachineRegister>),
        Seq::new(blocks.len(), |i: int| false),
        Seq::empty(),
        initial_pool(),
    );
}


/// After a `finalize` that found nothing wrong, the analyses of the program can
/// be built: code generation can then fail only for want of machine registers or
/// at an instruction without a lowering.
pub proof fn lemma_finalized_has_analyses(before: ContextView, after: ContextView, r: Result<(), CodeGenError>)
    requires
        finalize_outcome(before, after, r),
        well_formed(after.manager.blocks, after.manager.start),
        r is Ok,
    ensures
        after.finalized,
        analysis_error(after.manager) is None,
{
    lemma_edges_in_range(after.manager.blocks);
    assert(first_violation(
        after.manager.blocks,
        after.manager.start,
        after.manager.register_count(),
    ) is None);
}


/// Whether the walk from block `q` holds no machine register twice in any state
/// it passes through: after the release on entry to a block, after the
/// definitions of the block, after the release on exit, and so on into the exits.
pub open spec fn walk_apart(
    fuel: nat,
    blocks: Seq<BlockView>,
    gq: GraphQuery,
    q: usize,
    map: Seq<Option<MachineRegister>>,
    seen: Seq<bool>,
    current: Seq<(usize, MachineRegister)>,
    pool: Seq<MachineRegister>,
) -> bool
    decreases fuel, 0nat,
{
    if fuel == 0 || q >= blocks.len() || q >= seen.len() || seen[q as int] {
        true
    } else {
        let entered = release(gq, current, pool, q as int, false);
        &&& kept_apart(entered.0, entered.1)
        &&& match allocate_definitions(
            blocks[q as int].code,
            0,
            Assignment { current: entered.0, pool: entered.1, map },
        ) {
            Err(_) => true,
            Ok(a) => {
                let left = release(gq, a.current, a.pool, q as int, true);
                &&& kept_apart(a.current, a.pool)
                &&& kept_apart(left.0, left.1)
                &&& exits_apart(
                    (fuel - 1) as nat,
                    blocks,
                    gq,
                    blocks[q as int].exits,
                    0,
                    a.map,
                    seen.update(q as int, true),
                    left.0,
                    left.1,
                )
            },
        }
    }
}

/// Whether the walk into the exits from index `k` on holds no machine register
/// twice in any state it passes through.
pub open spec fn exits_apart(
    fuel: nat,
    blocks: Seq<BlockView>,
    gq: GraphQuery,
    exits: Seq<usize>,
    k: int,
    map: Seq<Option<MachineRegister>>,
    seen: Seq<bool>,
    current: Seq<(usize, MachineRegister)>,
    pool: Seq<MachineRegister>,
) -> bool
    decreases fuel, 1 + exits.len() - k,
{
    if k < 0 || k >= exits.len() {
        true
    } else {
        &&& walk_apart(fuel, blocks, gq, exits[k], map, seen, current, pool)
        &&& match visit(fuel, blocks, gq, exits[k], map, seen, current, pool) {
            Err(_) => true,
            Ok((map2, seen2)) => exits_apart(
                fuel,
                blocks,
                gq,
                exits,
                k + 1,
                map2,
                seen2,
                current,
                pool,
            ),
        }
    }
}

/// A walk that starts with no machine register held twice never holds one twice:
/// at no point of it do two virtual registers of the current map, the values
/// that are live there, share a machine register.
pub proof fn lemma_walk_apart(
    fuel: nat,
    blocks: Seq<BlockView>,
    gq: GraphQuery,
    q: usize,
    map: Seq<Option<MachineRegister>>,
    seen: Seq<bool>,
    current: Seq<(usize, MachineRegister)>,
    pool: Seq<MachineRegister>,
)
    requires
        kept_apart(current, pool),
    ensures
        walk_apart(fuel, blocks, gq, q, map, seen, current, pool),
    decreases fuel, 0nat,
{
    if fuel == 0 || q >= blocks.len() || q >= seen.len() || seen[q as int] {
    } else {
        lemma_release_apart(gq, current, pool, q as int, false);
        let entered = release(gq, current, pool, q as int, false);
        let start = Assignment { current: entered.0, pool: entered.1, map };
        lemma_allocate_apart(blocks[q as int].code, 0, start);
        match allocate_definitions(blocks[q as int].code, 0, start) {
            Err(_) => {},
            Ok(a) => {
                lemma_release_apart(gq, a.current, a.pool, q as int, true);
                let left = release(gq, a.current, a.pool, q as int, true);
                lemma_exits_apart(
                    (fuel - 1) as nat,
                    blocks,
                    gq,
                    blocks[q as int].exits,
                    0,
                    a.map,
                    seen.update(q as int, true),
                    left.0,
                    left.1,
                );
            },
        }
    }
}

/// The walk into the exits of a block never holds a machine register twice.
pub proof fn lemma_exits_apart(
    fuel: nat,
    blocks: Seq<BlockView>,
    gq: GraphQuery,
    exits: Seq<usize>,
    k: int,
    map: Seq<Option<MachineRegister>>,
    seen: Seq<bool>,
    current: Seq<(usize, MachineRegister)>,
    pool: Seq<MachineRegister>,
)
    requires
        kept_apart(current, pool),
    ensures
        exits_apart(fuel, blocks, gq, exits, k, map, seen, current, pool),
    decreases fuel, 1 + exits.len() - k,
{
    if k < 0 || k >= exits.len() {
    } else {
        lemma_walk_apart(fuel, blocks, gq, exits[k], map, seen, current, pool);
        match visit(fuel, blocks, gq, exits[k], map, seen, current, pool) {
            Err(_) => {},
            Ok((map2, seen2)) => {
                lemma_exits_apart(fuel, blocks, gq, exits, k + 1, map2, seen2, current, pool);
            },
        }
    }
}

/// The allocation of a program never holds a machine register twice.
pub proof fn lemma_allocation_apart(blocks: Seq<BlockView>, start: usize, gq: GraphQuery, nregs: nat)
    ensures
        walk_apart(
            blocks.len(),
            blocks,
            gq,
            start,
            Seq::new(nregs, |i: int| None::<MachineRegister>),
            Seq::new(blocks.len(), |i: int| false),
            Seq::empty(),
            initial_pool(),
        ),
{
    lemma_initial_pool_apart();
    lemma_walk_apart(
        blocks.len(),
        blocks,
        gq,
        start,
        Seq::new(nregs, |i: int| None::<MachineRegister>),
        Seq::new(blocks.len(), |i: int| false),
        Seq::empty(),
        initial_pool(),
    );
}

} // verus!
