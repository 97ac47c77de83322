//! The intermediate representation: values, instructions, basic blocks and the
//! context that owns them.

use crate::codegen::x86_64::{CodeGenError, CodeGenErrorReason};
use crate::index_list::{
    insert_unique, list_insert_unique, list_items, list_new, list_to_vec, IndexList,
};
use vstd::prelude::*;

verus! {

/// The width and signedness of a primitive value.
#[derive(Debug, PartialEq, Eq, Clone, Copy, Structural)]
pub enum PrimitiveValue {
    U8,
    I8,
    U16,
    I16,
    U32,
    I32,
    U64,
    I64,
}

impl PrimitiveValue {
    /// The operand size in bits.
    pub open spec fn bits(self) -> nat {
        match self {
            PrimitiveValue::U8 | PrimitiveValue::I8 => 8,
            PrimitiveValue::U16 | PrimitiveValue::I16 => 16,
            PrimitiveValue::U32 | PrimitiveValue::I32 => 32,
            PrimitiveValue::U64 | PrimitiveValue::I64 => 64,
        }
    }

    /// The operand size in bits.
    pub fn width(&self) -> (w: u8)
        ensures
            w == self.bits(),
    {
        match self {
            PrimitiveValue::U8 | PrimitiveValue::I8 => 8,
            PrimitiveValue::U16 | PrimitiveValue::I16 => 16,
            PrimitiveValue::U32 | PrimitiveValue::I32 => 32,
            PrimitiveValue::U64 | PrimitiveValue::I64 => 64,
        }
    }
}

/// The declared type of a virtual register.
#[derive(Debug, Clone, Copy)]
pub struct Register {
    pub _type: PrimitiveValue,
}

/// Key of a constant in its context.
#[derive(Debug, Clone, Copy, PartialOrd, Ord, PartialEq, Eq, Structural)]
pub struct ConstantIndex(pub usize);

impl ConstantIndex {
    pub fn new(inner: usize) -> (ci: Self)
        ensures
            ci == ConstantIndex(inner),
    {
        Self(inner)
    }
}

/// Key of a basic block in its context.
#[derive(Debug, Clone, Copy, PartialOrd, Ord, PartialEq, Eq, Structural)]
pub struct BasicBlockIndex(pub usize);

/// Identity of a virtual register in its context.
#[derive(Debug, Clone, Copy, PartialOrd, Ord, PartialEq, Eq, Structural)]
pub struct RegisterIndex(pub usize);

/// An operand: a virtual register or an immediate of a given width.
#[derive(Debug, Clone, Copy, PartialEq, Eq, Structural)]
pub enum Value {
    Register(RegisterIndex),
    Immediate { _type: PrimitiveValue, value: usize },
}

impl Value {
    pub fn u32(v: u32) -> (val: Self)
        ensures
            val == (Value::Immediate { _type: PrimitiveValue::U32, value: v as usize }),
    {
        Value::Immediate { _type: PrimitiveValue::U32, value: v as usize }
    }
}

/// One instruction of a basic block.
#[derive(Debug, Clone, Copy, PartialEq, Eq, Structural)]
#[allow(inconsistent_fields)]
pub enum IR {
    Alloca { dest_register: RegisterIndex, _type: PrimitiveValue, alignment: u8 },
    Add { dest_register: RegisterIndex, src1: Value, src2: Value },
    Subtract { dest_register: RegisterIndex, src1: Value, src2: Value },
    Multiply { dest_register: RegisterIndex, src1: Value, src2: Value },
    Divide { dest_register: RegisterIndex, src1: Value, src2: Value },
    /// Src is a pointer that is dereferenced.
    Load { dest_register: Value, src_register: Value },
    /// Dest is a pointer that is dereferenced.
    Store { dest_register: Value, src_register: Value },
    JumpIfEqual { src_register: Value, true_bb_idx: BasicBlockIndex, false_bb_idx: BasicBlockIndex },
    JumpIfNotEqual {
        src_register: Value,
        true_bb_idx: BasicBlockIndex,
        false_bb_idx: BasicBlockIndex,
    },
    Jump { bb_idx: BasicBlockIndex },
    PrintConstant { constant_ref: ConstantIndex },
    Return,
}


/// Whether an instruction ends a block by transferring control.
pub open spec fn is_terminator(inst: IR) -> bool {
    inst is Jump || inst is JumpIfEqual || inst is JumpIfNotEqual || inst is Return
}

/// The blocks an instruction may transfer control to.
pub open spec fn targets_of(inst: IR) -> Seq<usize> {
    match inst {
        IR::Jump { bb_idx } => seq![bb_idx.0],
        IR::JumpIfEqual { true_bb_idx, false_bb_idx, .. } => seq![true_bb_idx.0, false_bb_idx.0],
        IR::JumpIfNotEqual { true_bb_idx, false_bb_idx, .. } => seq![
            true_bb_idx.0,
            false_bb_idx.0,
        ],
        _ => seq![],
    }
}

/// The register an operand reads, if it is one.
pub open spec fn value_register(v: Value) -> Option<usize> {
    match v {
        Value::Register(r) => Some(r.0),
        Value::Immediate { .. } => None,
    }
}

/// The virtual register an instruction defines, if any.
pub open spec fn defined_register(inst: IR) -> Option<usize> {
    match inst {
        IR::Alloca { dest_register, .. } => Some(dest_register.0),
        IR::Add { dest_register, .. } => Some(dest_register.0),
        IR::Subtract { dest_register, .. } => Some(dest_register.0),
        IR::Multiply { dest_register, .. } => Some(dest_register.0),
        IR::Divide { dest_register, .. } => Some(dest_register.0),
        IR::Load { dest_register, .. } => value_register(dest_register),
        _ => None,
    }
}

/// The operands an instruction reads, in order.
pub open spec fn operands_of(inst: IR) -> Seq<Value> {
    match inst {
        IR::Add { src1, src2, .. } => seq![src1, src2],
        IR::Subtract { src1, src2, .. } => seq![src1, src2],
        IR::Multiply { src1, src2, .. } => seq![src1, src2],
        IR::Divide { src1, src2, .. } => seq![src1, src2],
        IR::Load { src_register, .. } => seq![src_register],
        IR::Store { dest_register, src_register } => seq![dest_register, src_register],
        IR::JumpIfEqual { src_register, .. } => seq![src_register],
        IR::JumpIfNotEqual { src_register, .. } => seq![src_register],
        _ => seq![],
    }
}

/// The register an operand reads, as a list of at most one item.
pub open spec fn value_registers(v: Value) -> Seq<usize> {
    match v {
        Value::Register(r) => seq![r.0],
        Value::Immediate { .. } => seq![],
    }
}

/// The virtual registers an instruction reads, in operand order.
pub open spec fn registers_read(inst: IR) -> Seq<usize> {
    match inst {
        IR::Add { src1, src2, .. } => value_registers(src1) + value_registers(src2),
        IR::Subtract { src1, src2, .. } => value_registers(src1) + value_registers(src2),
        IR::Multiply { src1, src2, .. } => value_registers(src1) + value_registers(src2),
        IR::Divide { src1, src2, .. } => value_registers(src1) + value_registers(src2),
        IR::Load { src_register, .. } => value_registers(src_register),
        IR::Store { dest_register, src_register } => value_registers(dest_register)
            + value_registers(src_register),
        IR::JumpIfEqual { src_register, .. } => value_registers(src_register),
        IR::JumpIfNotEqual { src_register, .. } => value_registers(src_register),
        _ => seq![],
    }
}

/// Whether an instruction reads virtual register `r`.
pub open spec fn uses_register(inst: IR, r: usize) -> bool {
    registers_read(inst).contains(r)
}

impl IR {
    /// Whether this instruction ends a block by transferring control.
    pub fn terminates(&self) -> (b: bool)
        ensures
            b == is_terminator(*self),
    {
        match self {
            IR::Jump { .. } => true,
            IR::JumpIfEqual { .. } => true,
            IR::JumpIfNotEqual { .. } => true,
            IR::Return => true,
            _ => false,
        }
    }

    /// The blocks this instruction may transfer control to.
    pub fn targets(&self) -> (t: Vec<usize>)
        ensures
            t@ == targets_of(*self),
    {
        let mut t: Vec<usize> = Vec::new();
        match self {
            IR::Jump { bb_idx } => {
                t.push(bb_idx.0);
            },
            IR::JumpIfEqual { true_bb_idx, false_bb_idx, .. } => {
                t.push(true_bb_idx.0);
                t.push(false_bb_idx.0);
            },
            IR::JumpIfNotEqual { true_bb_idx, false_bb_idx, .. } => {
                t.push(true_bb_idx.0);
                t.push(false_bb_idx.0);
            },
            _ => {},
        }
        assert(t@ =~= targets_of(*self));
        t
    }

    /// The virtual register this instruction defines, if any.
    pub fn defines(&self) -> (d: Option<usize>)
        ensures
            d == defined_register(*self),
    {
        match self {
            IR::Alloca { dest_register, .. } => Some(dest_register.0),
            IR::Add { dest_register, .. } => Some(dest_register.0),
            IR::Subtract { dest_register, .. } => Some(dest_register.0),
            IR::Multiply { dest_register, .. } => Some(dest_register.0),
            IR::Divide { dest_register, .. } => Some(dest_register.0),
            IR::Load { dest_register, .. } => match dest_register {
                Value::Register(r) => Some(r.0),
                Value::Immediate { .. } => None,
            },
            _ => None,
        }
    }

    /// The virtual registers this instruction reads, in operand order.
    pub fn reads(&self) -> (regs: Vec<usize>)
        ensures
            regs@ == registers_read(*self),
    {
        let ops = self.operands();
        let mut regs: Vec<usize> = Vec::new();
        let mut i: usize = 0;
        while i < ops.len()
            invariant
                i <= ops.len(),
                ops@ == operands_of(*self),
                ops@.len() <= 2,
                i == 0 ==> regs@ == Seq::<usize>::empty(),
                i == 1 ==> regs@ == value_registers(ops@[0]),
                i == 2 ==> regs@ == value_registers(ops@[0]) + value_registers(ops@[1]),
            decreases ops.len() - i,
        {
            match ops[i] {
                Value::Register(r) => {
                    regs.push(r.0);
                },
                Value::Immediate { .. } => {},
            }
            i += 1;
            assert(i == 1 ==> regs@ =~= value_registers(ops@[0]));
            assert(i == 2 ==> regs@ =~= value_registers(ops@[0]) + value_registers(ops@[1]));
        }
        assert(regs@ =~= registers_read(*self));
        regs
    }

    /// The operands this instruction reads, in order.
    pub fn operands(&self) -> (ops: Vec<Value>)
        ensures
            ops@ == operands_of(*self),
    {
        let mut ops: Vec<Value> = Vec::new();
        match self {
            IR::Add { src1, src2, .. } => {
                ops.push(*src1);
                ops.push(*src2);
            },
            IR::Subtract { src1, src2, .. } => {
                ops.push(*src1);
                ops.push(*src2);
            },
            IR::Multiply { src1, src2, .. } => {
                ops.push(*src1);
                ops.push(*src2);
            },
            IR::Divide { src1, src2, .. } => {
                ops.push(*src1);
                ops.push(*src2);
            },
            IR::Load { src_register, .. } => {
                ops.push(*src_register);
            },
            IR::Store { dest_register, src_register } => {
                ops.push(*dest_register);
                ops.push(*src_register);
            },
            IR::JumpIfEqual { src_register, .. } => {
                ops.push(*src_register);
            },
            IR::JumpIfNotEqual { src_register, .. } => {
                ops.push(*src_register);
            },
            _ => {},
        }
        assert(ops@ =~= operands_of(*self));
        ops
    }
}

/// What a basic block holds, as plain values.
pub struct BlockView {
    /// The block's own index.
    pub index: usize,
    /// Predecessors in the control-flow graph.
    pub parents: Seq<usize>,
    /// Successors in the control-flow graph.
    pub exits: Seq<usize>,
    /// The instructions, in order.
    pub code: Seq<IR>,
    /// Edge notices (source, target) not yet delivered to the owner of the blocks.
    pub pending: Seq<(usize, usize)>,
    /// The last virtual register index handed out through this block.
    pub next_register: usize,
}

/// Node in the control flow graph; core unit; straight line code.
#[derive(Debug)]
pub struct BasicBlock {
    /// Blocks that may transfer control into this one.
    parents: IndexList,
    /// Exits from this basic block.
    exits: IndexList,
    code: Vec<IR>,
    /// Its own index, written into the edge notices.
    self_idx: BasicBlockIndex,
    /// Edge notices waiting for the manager: a jump updates the source here and
    /// the manager later updates the target.
    outbox: Vec<(usize, usize)>,
    /// The register counter, lent by the manager while the block is being built.
    next_register: usize,
}

impl View for BasicBlock {
    type V = BlockView;

    closed spec fn view(&self) -> BlockView {
        BlockView {
            index: self.self_idx.0,
            parents: list_items(self.parents),
            exits: list_items(self.exits),
            code: self.code@,
            pending: self.outbox@,
            next_register: self.next_register,
        }
    }
}

impl BasicBlock {
    /// Declares `parent` as a predecessor of this block.
    pub fn add_parent(&mut self, parent: BasicBlockIndex) -> (ret: &mut Self)
        ensures
            ret@ == (BlockView {
                parents: insert_unique(old(self)@.parents, parent.0),
                ..old(self)@
            }),
            *final(self) == *final(ret),
    {
        list_insert_unique(&mut self.parents, parent.0);
        self
    }

    /// Appends an instruction as it is: no register is allocated and no edge recorded.
    pub fn push_instruction(&mut self, inst: IR) -> (ret: &mut Self)
        ensures
            ret@ == (BlockView { code: old(self)@.code.push(inst), ..old(self)@ }),
            *final(self) == *final(ret),
    {
        self.code.push(inst);
        self
    }

    /// Ends the building of this block; the block is left as it is.
    pub fn finish(&mut self)
        ensures
            *final(self) == *old(self),
    {
    }

    /// The block's own index.
    pub fn index(&self) -> (i: BasicBlockIndex)
        ensures
            i.0 == self@.index,
    {
        self.self_idx
    }

    /// The predecessors recorded so far.
    pub fn parents(&self) -> (v: Vec<usize>)
        ensures
            v@ == self@.parents,
    {
        list_to_vec(&self.parents)
    }

    /// The successors recorded so far.
    pub fn exits(&self) -> (v: Vec<usize>)
        ensures
            v@ == self@.exits,
    {
        list_to_vec(&self.exits)
    }

    /// The last virtual register index handed out through this block: the next
    /// register built here has the index behind it.
    pub fn last_register(&self) -> (n: usize)
        ensures
            n == self@.next_register,
    {
        self.next_register
    }

    /// The instructions, in order.
    pub fn instructions(&self) -> (code: &Vec<IR>)
        ensures
            code@ == self@.code,
    {
        &self.code
    }

    fn fresh_register(&mut self) -> (r: RegisterIndex)
        requires
            old(self)@.next_register < usize::MAX,
        ensures
            r.0 == old(self)@.next_register + 1,
            final(self)@ == (BlockView { next_register: r.0, ..old(self)@ }),
    {
        self.next_register = self.next_register + 1;
        RegisterIndex(self.next_register)
    }

    /// Appends `dest = v1 + v2` with a fresh register `dest`, which is returned.
    pub fn add(&mut self, v1: Value, v2: Value) -> (ret: Value)
        requires
            old(self)@.next_register < usize::MAX,
        ensures
            ret == Value::Register(RegisterIndex((old(self)@.next_register + 1) as usize)),
            final(self)@ == (BlockView {
                code: old(self)@.code.push(
                    IR::Add {
                        dest_register: RegisterIndex((old(self)@.next_register + 1) as usize),
                        src1: v1,
                        src2: v2,
                    },
                ),
                next_register: (old(self)@.next_register + 1) as usize,
                ..old(self)@
            }),
    {
        let ri = self.fresh_register();
        self.code.push(IR::Add { dest_register: ri, src1: v1, src2: v2 });
        Value::Register(ri)
    }

    /// Appends `dest = v1 - v2` with a fresh register `dest`, which is returned.
    pub fn subtract(&mut self, v1: Value, v2: Value) -> (ret: Value)
        requires
            old(self)@.next_register < usize::MAX,
        ensures
            ret == Value::Register(RegisterIndex((old(self)@.next_register + 1) as usize)),
            final(self)@ == (BlockView {
                code: old(self)@.code.push(
                    IR::Subtract {
                        dest_register: RegisterIndex((old(self)@.next_register + 1) as usize),
                        src1: v1,
                        src2: v2,
                    },
                ),
                next_register: (old(self)@.next_register + 1) as usize,
                ..old(self)@
            }),
    {
        let ri = self.fresh_register();
        self.code.push(IR::Subtract { dest_register: ri, src1: v1, src2: v2 });
        Value::Register(ri)
    }

    /// Appends `dest = v1 * v2` with a fresh register `dest`, which is returned.
    pub fn multiply(&mut self, v1: Value, v2: Value) -> (ret: Value)
        requires
            old(self)@.next_register < usize::MAX,
        ensures
            ret == Value::Register(RegisterIndex((old(self)@.next_register + 1) as usize)),
            final(self)@ == (BlockView {
                code: old(self)@.code.push(
                    IR::Multiply {
                        dest_register: RegisterIndex((old(self)@.next_register + 1) as usize),
                        src1: v1,
                        src2: v2,
                    },
                ),
                next_register: (old(self)@.next_register + 1) as usize,
                ..old(self)@
            }),
    {
        let ri = self.fresh_register();
        self.code.push(IR::Multiply { dest_register: ri, src1: v1, src2: v2 });
        Value::Register(ri)
    }

    /// Appends `dest = v1 / v2` with a fresh register `dest`, which is returned.
    pub fn divide(&mut self, v1: Value, v2: Value) -> (ret: Value)
        requires
            old(self)@.next_register < usize::MAX,
        ensures
            ret == Value::Register(RegisterIndex((old(self)@.next_register + 1) as usize)),
            final(self)@ == (BlockView {
                code: old(self)@.code.push(
                    IR::Divide {
                        dest_register: RegisterIndex((old(self)@.next_register + 1) as usize),
                        src1: v1,
                        src2: v2,
                    },
                ),
                next_register: (old(self)@.next_register + 1) as usize,
                ..old(self)@
            }),
    {
        let ri = self.fresh_register();
        self.code.push(IR::Divide { dest_register: ri, src1: v1, src2: v2 });
        Value::Register(ri)
    }

    /// Appends a load through the pointer `ptr` into a fresh register, which is returned.
    pub fn load(&mut self, ptr: Value) -> (ret: Value)
        requires
            old(self)@.next_register < usize::MAX,
        ensures
            ret == Value::Register(RegisterIndex((old(self)@.next_register + 1) as usize)),
            final(self)@ == (BlockView {
                code: old(self)@.code.push(IR::Load { dest_register: ret, src_register: ptr }),
                next_register: (old(self)@.next_register + 1) as usize,
                ..old(self)@
            }),
    {
        let ri = self.fresh_register();
        let dest = Value::Register(ri);
        self.code.push(IR::Load { dest_register: dest, src_register: ptr });
        dest
    }

    /// Appends a store of `v` through the pointer `ptr`.
    pub fn store(&mut self, ptr: Value, v: Value)
        ensures
            final(self)@ == (BlockView {
                code: old(self)@.code.push(IR::Store { dest_register: ptr, src_register: v }),
                ..old(self)@
            }),
    {
        self.code.push(IR::Store { dest_register: ptr, src_register: v });
    }

    /// Appends a stack reservation; the fresh register returned holds a pointer to it.
    pub fn alloca(&mut self, _type: PrimitiveValue, alignment: u8) -> (ret: Value)
        requires
            old(self)@.next_register < usize::MAX,
        ensures
            ret == Value::Register(RegisterIndex((old(self)@.next_register + 1) as usize)),
            final(self)@ == (BlockView {
                code: old(self)@.code.push(
                    IR::Alloca {
                        dest_register: RegisterIndex((old(self)@.next_register + 1) as usize),
                        _type,
                        alignment,
                    },
                ),
                next_register: (old(self)@.next_register + 1) as usize,
                ..old(self)@
            }),
    {
        let ri = self.fresh_register();
        self.code.push(IR::Alloca { dest_register: ri, _type, alignment });
        Value::Register(ri)
    }

    /// Appends an unconditional jump, records the exit and posts the edge notice.
    pub fn jump(&mut self, target: BasicBlockIndex)
        ensures
            final(self)@ == (BlockView {
                exits: insert_unique(old(self)@.exits, target.0),
                code: old(self)@.code.push(IR::Jump { bb_idx: target }),
                pending: old(self)@.pending.push((old(self)@.index, target.0)),
                ..old(self)@
            }),
    {
        list_insert_unique(&mut self.exits, target.0);
        self.code.push(IR::Jump { bb_idx: target });
        self.outbox.push((self.self_idx.0, target.0));
    }

    /// Appends a branch taken to `true_bb` when `cond` is zero and to `false_bb`
    /// otherwise, records both exits and posts both edge notices.
    pub fn jump_if_equal(&mut self, cond: Value, true_bb: BasicBlockIndex, false_bb: BasicBlockIndex)
        ensures
            final(self)@ == (BlockView {
                exits: insert_unique(insert_unique(old(self)@.exits, true_bb.0), false_bb.0),
                code: old(self)@.code.push(
                    IR::JumpIfEqual {
                        src_register: cond,
                        true_bb_idx: true_bb,
                        false_bb_idx: false_bb,
                    },
                ),
                pending: old(self)@.pending.push((old(self)@.index, true_bb.0)).push(
                    (old(self)@.index, false_bb.0),
                ),
                ..old(self)@
            }),
    {
        list_insert_unique(&mut self.exits, true_bb.0);
        list_insert_unique(&mut self.exits, false_bb.0);
        self.code.push(
            IR::JumpIfEqual { src_register: cond, true_bb_idx: true_bb, false_bb_idx: false_bb },
        );
        self.outbox.push((self.self_idx.0, true_bb.0));
        self.outbox.push((self.self_idx.0, false_bb.0));
    }

    /// Appends a branch taken to `true_bb` when `cond` is not zero and to `false_bb`
    /// otherwise, records both exits and posts both edge notices.
    pub fn jump_if_not_equal(
        &mut self,
        cond: Value,
        true_bb: BasicBlockIndex,
        false_bb: BasicBlockIndex,
    )
        ensures
            final(self)@ == (BlockView {
                exits: insert_unique(insert_unique(old(self)@.exits, true_bb.0), false_bb.0),
                code: old(self)@.code.push(
                    IR::JumpIfNotEqual {
                        src_register: cond,
                        true_bb_idx: true_bb,
                        false_bb_idx: false_bb,
                    },
                ),
                pending: old(self)@.pending.push((old(self)@.index, true_bb.0)).push(
                    (old(self)@.index, false_bb.0),
                ),
                ..old(self)@
            }),
    {
        list_insert_unique(&mut self.exits, true_bb.0);
        list_insert_unique(&mut self.exits, false_bb.0);
        self.code.push(
            IR::JumpIfNotEqual { src_register: cond, true_bb_idx: true_bb, false_bb_idx: false_bb },
        );
        self.outbox.push((self.self_idx.0, true_bb.0));
        self.outbox.push((self.self_idx.0, false_bb.0));
    }

    /// Appends a function return.
    pub fn ret(&mut self)
        ensures
            final(self)@ == (BlockView { code: old(self)@.code.push(IR::Return), ..old(self)@ }),
    {
        self.code.push(IR::Return);
    }

    /// Appends a print of the constant `ci`.
    pub fn print_constant(&mut self, ci: ConstantIndex)
        ensures
            final(self)@ == (BlockView {
                code: old(self)@.code.push(IR::PrintConstant { constant_ref: ci }),
                ..old(self)@
            }),
    {
        self.code.push(IR::PrintConstant { constant_ref: ci });
    }
}


/// What a block manager holds, as plain values.
pub struct ManagerView {
    /// Index of the entry block.
    pub start: usize,
    /// The blocks, by index.
    pub blocks: Seq<BlockView>,
    /// The register counter as the manager last saw it.
    pub next_register: usize,
}

/// A block that holds nothing yet.
pub open spec fn empty_block(index: usize, next_register: usize) -> BlockView {
    BlockView {
        index,
        parents: Seq::empty(),
        exits: Seq::empty(),
        code: Seq::empty(),
        pending: Seq::empty(),
        next_register,
    }
}

/// The edge notices of all blocks, block by block.
pub open spec fn all_pending(blocks: Seq<BlockView>) -> Seq<(usize, usize)>
    decreases blocks.len(),
{
    if blocks.len() == 0 {
        Seq::empty()
    } else {
        all_pending(blocks.drop_last()) + blocks.last().pending
    }
}

/// The blocks with every edge notice dropped.
pub open spec fn without_pending(blocks: Seq<BlockView>) -> Seq<BlockView> {
    Seq::new(blocks.len(), |i: int| BlockView { pending: Seq::empty(), ..blocks[i] })
}

/// The blocks after one edge notice (source, target) has reached its target. A
/// notice for a block that does not exist changes nothing.
pub open spec fn deliver_one(blocks: Seq<BlockView>, msg: (usize, usize)) -> Seq<BlockView> {
    if msg.1 < blocks.len() {
        blocks.update(
            msg.1 as int,
            BlockView {
                parents: insert_unique(blocks[msg.1 as int].parents, msg.0),
                ..blocks[msg.1 as int]
            },
        )
    } else {
        blocks
    }
}

/// The blocks after the edge notices `msgs` have reached their targets, in order.
pub open spec fn deliver(blocks: Seq<BlockView>, msgs: Seq<(usize, usize)>) -> Seq<BlockView>
    decreases msgs.len(),
{
    if msgs.len() == 0 {
        blocks
    } else {
        deliver_one(deliver(blocks, msgs.drop_last()), msgs.last())
    }
}

/// The highest register counter among `base` and the blocks' own.
pub open spec fn highest_register(blocks: Seq<BlockView>, base: usize) -> usize
    decreases blocks.len(),
{
    if blocks.len() == 0 {
        base
    } else {
        let h = highest_register(blocks.drop_last(), base);
        if blocks.last().next_register > h {
            blocks.last().next_register
        } else {
            h
        }
    }
}

/// The blocks after the target of one pair (source, target) was recorded among
/// the exits of the source. A pair whose source does not exist changes nothing.
pub open spec fn deliver_back_one(blocks: Seq<BlockView>, msg: (usize, usize)) -> Seq<BlockView> {
    if msg.0 < blocks.len() {
        blocks.update(
            msg.0 as int,
            BlockView {
                exits: insert_unique(blocks[msg.0 as int].exits, msg.1),
                ..blocks[msg.0 as int]
            },
        )
    } else {
        blocks
    }
}

/// The blocks after each target of `msgs` was recorded among the exits of its
/// source, in order.
pub open spec fn deliver_back(blocks: Seq<BlockView>, msgs: Seq<(usize, usize)>) -> Seq<BlockView>
    decreases msgs.len(),
{
    if msgs.len() == 0 {
        blocks
    } else {
        deliver_back_one(deliver_back(blocks, msgs.drop_last()), msgs.last())
    }
}

/// The jump targets of the instructions, in order.
pub open spec fn flat_targets(code: Seq<IR>) -> Seq<usize>
    decreases code.len(),
{
    if code.len() == 0 {
        Seq::empty()
    } else {
        flat_targets(code.drop_last()) + targets_of(code.last())
    }
}

/// `s` with each item of `xs` appended, in order, unless it already occurs.
pub open spec fn insert_all(s: Seq<usize>, xs: Seq<usize>) -> Seq<usize>
    decreases xs.len(),
{
    if xs.len() == 0 {
        s
    } else {
        insert_unique(insert_all(s, xs.drop_last()), xs.last())
    }
}

/// The block with every jump target of its code among its exits.
pub open spec fn with_targets(b: BlockView) -> BlockView {
    BlockView { exits: insert_all(b.exits, flat_targets(b.code)), ..b }
}

/// The blocks, each with every jump target of its code among its exits.
pub open spec fn all_with_targets(blocks: Seq<BlockView>) -> Seq<BlockView> {
    Seq::new(blocks.len(), |i: int| with_targets(blocks[i]))
}

/// The pairs (`a`, x) for the items x of `xs`, in order.
pub open spec fn pairs_from(a: usize, xs: Seq<usize>) -> Seq<(usize, usize)> {
    Seq::new(xs.len(), |j: int| (a, xs[j]))
}

/// The pairs (x, `b`) for the items x of `xs`, in order.
pub open spec fn pairs_to(xs: Seq<usize>, b: usize) -> Seq<(usize, usize)> {
    Seq::new(xs.len(), |j: int| (xs[j], b))
}

/// Every exit of every block as a pair (source, target), in block order.
pub open spec fn exit_edges(blocks: Seq<BlockView>) -> Seq<(usize, usize)>
    decreases blocks.len(),
{
    if blocks.len() == 0 {
        Seq::empty()
    } else {
        exit_edges(blocks.drop_last()) + pairs_from(
            (blocks.len() - 1) as usize,
            blocks.last().exits,
        )
    }
}

/// Every declared parent of every block as a pair (parent, block), in block order.
pub open spec fn parent_edges(blocks: Seq<BlockView>) -> Seq<(usize, usize)>
    decreases blocks.len(),
{
    if blocks.len() == 0 {
        Seq::empty()
    } else {
        parent_edges(blocks.drop_last()) + pairs_to(
            blocks.last().parents,
            (blocks.len() - 1) as usize,
        )
    }
}

/// The blocks with their edges made to agree: every jump target is an exit,
/// every exit makes its source a parent of the target, and every declared parent
/// has the block as an exit.
pub open spec fn reconciled(blocks: Seq<BlockView>) -> Seq<BlockView> {
    let targeted = all_with_targets(blocks);
    let mirrored = deliver(targeted, exit_edges(targeted));
    deliver_back(mirrored, parent_edges(mirrored))
}

impl ManagerView {
    /// The number of virtual registers handed out so far.
    pub open spec fn register_count(self) -> usize {
        highest_register(self.blocks, self.next_register)
    }

    /// The manager after it has taken every edge notice from the blocks and
    /// recorded each source among its target's parents.
    pub open spec fn drained(self) -> ManagerView {
        ManagerView {
            start: self.start,
            blocks: deliver(without_pending(self.blocks), all_pending(self.blocks)),
            next_register: self.register_count(),
        }
    }
}

/// The first item of `s` that is not below `n`.
pub open spec fn first_out_of_range(s: Seq<usize>, n: nat) -> Option<usize>
    decreases s.len(),
{
    if s.len() == 0 {
        None
    } else if s[0] >= n {
        Some(s[0])
    } else {
        first_out_of_range(s.drop_first(), n)
    }
}

/// The first instruction at or after `from` with a jump target that is not below
/// `n`, as (instruction index, target).
pub open spec fn first_bad_target(code: Seq<IR>, n: nat, from: int) -> Option<(usize, usize)>
    decreases code.len() - from,
{
    if from < 0 || from >= code.len() {
        None
    } else {
        match first_out_of_range(targets_of(code[from]), n) {
            Some(t) => Some((from as usize, t)),
            None => first_bad_target(code, n, from + 1),
        }
    }
}

/// The first edge of one block that names a block that does not exist: among the
/// parents, then the exits, then the jump targets. Instruction index and target.
pub open spec fn block_edge_fault(b: BlockView, n: nat) -> Option<(usize, usize)> {
    match first_out_of_range(b.parents, n) {
        Some(p) => Some((0usize, p)),
        None => match first_out_of_range(b.exits, n) {
            Some(e) => Some((0usize, e)),
            None => first_bad_target(b.code, n, 0),
        },
    }
}

/// The first edge, in block order from `from`, that names a block that does not exist.
pub open spec fn first_invalid_edge(blocks: Seq<BlockView>, from: int) -> Option<CodeGenError>
    decreases blocks.len() - from,
{
    if from < 0 || from >= blocks.len() {
        None
    } else {
        match block_edge_fault(blocks[from], blocks.len()) {
            Some((i, t)) => Some(
                CodeGenError {
                    block: from as usize,
                    instruction: i,
                    reason: CodeGenErrorReason::InvalidEdge(t),
                },
            ),
            None => first_invalid_edge(blocks, from + 1),
        }
    }
}

/// Every parent, exit and jump target of the block is below `n`.
pub open spec fn block_edges_in_range(b: BlockView, n: nat) -> bool {
    &&& forall|k: int| 0 <= k < b.parents.len() ==> #[trigger] b.parents[k] < n
    &&& forall|k: int| 0 <= k < b.exits.len() ==> #[trigger] b.exits[k] < n
    &&& forall|i: int, k: int|
        0 <= i < b.code.len() && 0 <= k < targets_of(b.code[i]).len() ==> #[trigger] targets_of(
            b.code[i],
        )[k] < n
}

/// Every parent, exit and jump target of every block names a block that exists.
pub open spec fn edges_in_range(blocks: Seq<BlockView>) -> bool {
    forall|b: int|
        0 <= b < blocks.len() ==> #[trigger] block_edges_in_range(blocks[b], blocks.len())
}

/// `first_out_of_range` finds nothing exactly when every item is in range.
pub proof fn lemma_first_out_of_range(s: Seq<usize>, n: nat)
    ensures
        first_out_of_range(s, n) is None <==> forall|k: int| 0 <= k < s.len() ==> s[k] < n,
        first_out_of_range(s, n) matches Some(x) ==> x >= n && s.contains(x),
    decreases s.len(),
{
    if s.len() > 0 {
        lemma_first_out_of_range(s.drop_first(), n);
        if s[0] < n {
            assert forall|k: int| 0 <= k < s.len() && first_out_of_range(s, n) is None implies s[k]
                < n by {
                if k > 0 {
                    assert(s.drop_first()[k - 1] == s[k]);
                }
            }
            if first_out_of_range(s, n) is Some {
                let x = first_out_of_range(s, n)->0;
                let j = choose|j: int| 0 <= j < s.drop_first().len() && s.drop_first()[j] == x;
                assert(s[j + 1] == x);
            } else {
            }
            if forall|k: int| 0 <= k < s.len() ==> s[k] < n {
                assert forall|k: int| 0 <= k < s.drop_first().len() implies s.drop_first()[k]
                    < n by {
                    assert(s.drop_first()[k] == s[k + 1]);
                }
            }
        } else {
            assert(s[0] == s[0]);
        }
    }
}

/// `first_bad_target` finds nothing exactly when every jump target from `from` on
/// is in range.
pub proof fn lemma_first_bad_target(code: Seq<IR>, n: nat, from: int)
    requires
        0 <= from,
    ensures
        first_bad_target(code, n, from) is None <==> forall|i: int, k: int|
            from <= i < code.len() && 0 <= k < targets_of(code[i]).len() ==> #[trigger] targets_of(
                code[i],
            )[k] < n,
        first_bad_target(code, n, from) matches Some((i, t)) ==> t >= n,
    decreases code.len() - from,
{
    if from < code.len() {
        lemma_first_out_of_range(targets_of(code[from]), n);
        lemma_first_bad_target(code, n, from + 1);
    }
}

/// `first_invalid_edge` finds nothing exactly when all edges are in range.
pub proof fn lemma_first_invalid_edge(blocks: Seq<BlockView>, from: int)
    requires
        0 <= from,
    ensures
        first_invalid_edge(blocks, from) is None <==> forall|b: int|
            from <= b < blocks.len() ==> #[trigger] block_edge_fault(blocks[b], blocks.len())
                is None,
    decreases blocks.len() - from,
{
    if from < blocks.len() {
        lemma_first_invalid_edge(blocks, from + 1);
    }
}

/// No edge is reported exactly when every edge names a block that exists.
pub proof fn lemma_edges_in_range(blocks: Seq<BlockView>)
    ensures
        first_invalid_edge(blocks, 0) is None <==> edges_in_range(blocks),
{
    lemma_first_invalid_edge(blocks, 0);
    let n = blocks.len();
    assert forall|b: int| 0 <= b < n implies (#[trigger] block_edge_fault(blocks[b], n) is None
        <==> block_edges_in_range(blocks[b], n)) by {
        lemma_first_out_of_range(blocks[b].parents, n);
        lemma_first_out_of_range(blocks[b].exits, n);
        lemma_first_bad_target(blocks[b].code, n, 0);
    }
    if edges_in_range(blocks) {
        assert forall|b: int| 0 <= b < n implies #[trigger] block_edge_fault(blocks[b], n)
            is None by {
            assert(block_edges_in_range(blocks[b], n));
        }
    }
    if first_invalid_edge(blocks, 0) is None {
        assert forall|b: int| 0 <= b < n implies #[trigger] block_edges_in_range(
            blocks[b],
            n,
        ) by {
            assert(block_edge_fault(blocks[b], n) is None);
        }
    }
}

/// The first item of `v` that is not below `n`.
pub fn find_out_of_range(v: &Vec<usize>, n: usize) -> (r: Option<usize>)
    ensures
        r == first_out_of_range(v@, n as nat),
{
    let mut i: usize = 0;
    assert(v@.subrange(0, v.len() as int) =~= v@);
    while i < v.len()
        invariant
            i <= v.len(),
            first_out_of_range(v@, n as nat) == first_out_of_range(
                v@.subrange(i as int, v.len() as int),
                n as nat,
            ),
        decreases v.len() - i,
    {
        assert(v@.subrange(i as int, v.len() as int).drop_first() =~= v@.subrange(
            i + 1,
            v.len() as int,
        ));
        if v[i] >= n {
            return Some(v[i]);
        }
        i += 1;
    }
    None
}

/// The blocks as plain values.
pub closed spec fn blocks_view(blocks: Seq<BasicBlock>) -> Seq<BlockView> {
    Seq::new(blocks.len(), |i: int| blocks[i]@)
}

proof fn lemma_blocks_view_update(blocks: Seq<BasicBlock>, i: int, b: BasicBlock)
    requires
        0 <= i < blocks.len(),
    ensures
        blocks_view(blocks.update(i, b)) == blocks_view(blocks).update(i, b@),
{
    assert(blocks_view(blocks.update(i, b)) =~= blocks_view(blocks).update(i, b@));
}

/// Owner of the basic blocks of one control-flow graph.
#[derive(Debug)]
pub struct BasicBlockManager {
    pub(crate) start: BasicBlockIndex,
    blocks: Vec<BasicBlock>,
    /// The register counter, brought up to date whenever the manager is called.
    next_register: usize,
}

impl View for BasicBlockManager {
    type V = ManagerView;

    closed spec fn view(&self) -> ManagerView {
        ManagerView {
            start: self.start.0,
            blocks: blocks_view(self.blocks@),
            next_register: self.next_register,
        }
    }
}

impl BasicBlockManager {
    pub fn new() -> (m: Self)
        ensures
            m@ == (ManagerView { start: 0, blocks: Seq::empty(), next_register: 0 }),
    {
        let m = Self { start: BasicBlockIndex(0), blocks: Vec::new(), next_register: 0 };
        assert(m@.blocks =~= Seq::empty());
        m
    }

    /// The number of virtual registers handed out so far.
    pub fn register_count(&self) -> (count: usize)
        ensures
            count == self@.register_count(),
    {
        let n = self.blocks.len();
        let mut count = self.next_register;
        let mut i: usize = 0;
        while i < n
            invariant
                n == self.blocks.len(),
                i <= n,
                count == highest_register(self@.blocks.subrange(0, i as int), self.next_register),
            decreases n - i,
        {
            assert(self@.blocks.subrange(0, i + 1).drop_last() =~= self@.blocks.subrange(0, i as int));
            if self.blocks[i].next_register > count {
                count = self.blocks[i].next_register;
            }
            i += 1;
        }
        assert(self@.blocks.subrange(0, n as int) =~= self@.blocks);
        count
    }

    /// Takes the register counter back from the blocks.
    fn sync_registers(&mut self)
        ensures
            final(self)@ == (ManagerView { next_register: old(self)@.register_count(), ..old(self)@ }),
    {
        self.next_register = self.register_count();
    }

    /// The index of the entry block.
    pub fn start(&self) -> (bi: BasicBlockIndex)
        ensures
            bi.0 == self@.start,
    {
        self.start
    }

    /// Takes every edge notice from the blocks, in block order.
    fn collect_messages(&mut self) -> (msgs: Vec<(usize, usize)>)
        ensures
            msgs@ == all_pending(old(self)@.blocks),
            final(self)@ == (ManagerView {
                blocks: without_pending(old(self)@.blocks),
                ..old(self)@
            }),
    {
        let mut msgs: Vec<(usize, usize)> = Vec::new();
        let n = self.blocks.len();
        let mut i: usize = 0;
        while i < n
            invariant
                n == self.blocks.len(),
                n == old(self).blocks.len(),
                i <= n,
                self.start == old(self).start,
                self.next_register == old(self).next_register,
                msgs@ == all_pending(old(self)@.blocks.subrange(0, i as int)),
                forall|j: int|
                    0 <= j < i ==> #[trigger] self.blocks@[j]@ == (BlockView {
                        pending: Seq::empty(),
                        ..old(self).blocks@[j]@
                    }),
                forall|j: int| i <= j < n ==> #[trigger] self.blocks@[j] == old(self).blocks@[j],
            decreases n - i,
        {
            assert(old(self)@.blocks.subrange(0, i + 1).drop_last() =~= old(self)@.blocks.subrange(
                0,
                i as int,
            ));
            let m = self.blocks[i].outbox.len();
            let mut k: usize = 0;
            let ghost base = msgs@;
            while k < m
                invariant
                    n == self.blocks.len(),
                    i < n,
                    m == self.blocks@[i as int].outbox.len(),
                    k <= m,
                    msgs@ == base + self.blocks@[i as int].outbox@.subrange(0, k as int),
                decreases m - k,
            {
                msgs.push(self.blocks[i].outbox[k]);
                k += 1;
                assert(msgs@ == base + self.blocks@[i as int].outbox@.subrange(0, k as int));
            }
            assert(self.blocks@[i as int].outbox@.subrange(0, m as int)
                =~= self.blocks@[i as int].outbox@);
            let b = &mut self.blocks[i];
            b.outbox = Vec::new();
            i += 1;
        }
        assert(old(self)@.blocks.subrange(0, n as int) =~= old(self)@.blocks);
        assert(self@.blocks =~= without_pending(old(self)@.blocks));
        msgs
    }

    /// Records each source among the parents of its target, in the order given.
    fn deliver_parents(&mut self, msgs: &Vec<(usize, usize)>)
        ensures
            final(self)@ == (ManagerView { blocks: deliver(old(self)@.blocks, msgs@), ..old(self)@ }),
    {
        let n = msgs.len();
        let mut k: usize = 0;
        while k < n
            invariant
                n == msgs.len(),
                k <= n,
                self.start == old(self).start,
                self.next_register == old(self).next_register,
                self@.blocks == deliver(old(self)@.blocks, msgs@.subrange(0, k as int)),
            decreases n - k,
        {
            assert(msgs@.subrange(0, k + 1).drop_last() =~= msgs@.subrange(0, k as int));
            let (src, target) = msgs[k];
            let ghost before = self@.blocks;
            if target < self.blocks.len() {
                let b = &mut self.blocks[target];
                list_insert_unique(&mut b.parents, src);
            }
            k += 1;
            assert(self@.blocks =~= deliver_one(before, (src, target)));
        }
        assert(msgs@.subrange(0, n as int) =~= msgs@);
    }

    /// Records each target among the exits of its source, in the order given.
    fn deliver_exits(&mut self, msgs: &Vec<(usize, usize)>)
        ensures
            final(self)@ == (ManagerView {
                blocks: deliver_back(old(self)@.blocks, msgs@),
                ..old(self)@
            }),
    {
        let n = msgs.len();
        let mut k: usize = 0;
        while k < n
            invariant
                n == msgs.len(),
                k <= n,
                self.start == old(self).start,
                self.next_register == old(self).next_register,
                self@.blocks == deliver_back(old(self)@.blocks, msgs@.subrange(0, k as int)),
            decreases n - k,
        {
            assert(msgs@.subrange(0, k + 1).drop_last() =~= msgs@.subrange(0, k as int));
            let (src, target) = msgs[k];
            let ghost before = self@.blocks;
            if src < self.blocks.len() {
                let b = &mut self.blocks[src];
                list_insert_unique(&mut b.exits, target);
            }
            k += 1;
            assert(self@.blocks =~= deliver_back_one(before, (src, target)));
        }
        assert(msgs@.subrange(0, n as int) =~= msgs@);
    }

    /// Drains the edge notices: every source becomes a parent of its target.
    fn process_messages(&mut self)
        ensures
            final(self)@ == old(self)@.drained(),
    {
        self.sync_registers();
        let msgs = self.collect_messages();
        self.deliver_parents(&msgs);
    }

    /// Records every jump target of every block among the exits of the block.
    fn add_jump_targets(&mut self)
        ensures
            final(self)@ == (ManagerView { blocks: all_with_targets(old(self)@.blocks), ..old(self)@ }),
    {
        let n = self.blocks.len();
        let mut b: usize = 0;
        while b < n
            invariant
                n == self.blocks.len(),
                n == old(self).blocks.len(),
                b <= n,
                self.start == old(self).start,
                self.next_register == old(self).next_register,
                forall|j: int| 0 <= j < b ==> #[trigger] self@.blocks[j] == with_targets(old(self)@.blocks[j]),
                forall|j: int| b <= j < n ==> #[trigger] self@.blocks[j] == old(self)@.blocks[j],
            decreases n - b,
        {
            let ghost bv = self@.blocks[b as int];
            let ghost blocks_before = self@.blocks;
            let m = self.blocks[b].code.len();
            let mut targets: Vec<usize> = Vec::new();
            let mut i: usize = 0;
            while i < m
                invariant
                    n == self.blocks.len(),
                    b < n,
                    self@.blocks == blocks_before,
                    bv == self@.blocks[b as int],
                    m == bv.code.len(),
                    i <= m,
                    targets@ == flat_targets(bv.code.subrange(0, i as int)),
                decreases m - i,
            {
                assert(bv.code.subrange(0, i + 1).drop_last() =~= bv.code.subrange(0, i as int));
                let mut t = self.blocks[b].code[i].targets();
                targets.append(&mut t);
                i += 1;
            }
            assert(bv.code.subrange(0, m as int) =~= bv.code);
            let mut k: usize = 0;
            assert(self@.blocks =~= blocks_before.update(
                b as int,
                BlockView { exits: insert_all(bv.exits, targets@.subrange(0, 0)), ..bv },
            ));
            while k < targets.len()
                invariant
                    k <= targets.len(),
                    n == self.blocks.len(),
                    b < n,
                    n == blocks_before.len(),
                    self.start == old(self).start,
                    self.next_register == old(self).next_register,
                    self@.blocks == blocks_before.update(
                        b as int,
                        BlockView {
                            exits: insert_all(bv.exits, targets@.subrange(0, k as int)),
                            ..bv
                        },
                    ),
                decreases targets.len() - k,
            {
                assert(targets@.subrange(0, k + 1).drop_last() =~= targets@.subrange(0, k as int));
                let ghost mid = self@.blocks;
                let ghost want = insert_all(bv.exits, targets@.subrange(0, k + 1));
                assert(targets@.subrange(0, k + 1).last() == targets@[k as int]);
                assert(want == insert_unique(
                    insert_all(bv.exits, targets@.subrange(0, k as int)),
                    targets@[k as int],
                ));
                assert(mid[b as int].exits == insert_all(bv.exits, targets@.subrange(0, k as int)));
                let block = &mut self.blocks[b];
                list_insert_unique(&mut block.exits, targets[k]);
                k += 1;
                assert(self@.blocks[b as int] == (BlockView { exits: want, ..mid[b as int] }));
                assert forall|j: int| 0 <= j < n && j != b implies self@.blocks[j] == mid[j] by {}
                assert(self@.blocks.len() == n);
                assert(mid.len() == n);
                let ghost goal = blocks_before.update(
                    b as int,
                    BlockView { exits: want, ..bv },
                );
                assert(goal.len() == n);
                assert forall|j: int| 0 <= j < n implies self@.blocks[j] == goal[j] by {
                    if j != b {
                        assert(self@.blocks[j] == mid[j]);
                        assert(mid[j] == blocks_before[j]);
                    }
                }
                assert(self@.blocks =~= goal);
                assert(self@.blocks =~= blocks_before.update(
                    b as int,
                    BlockView { exits: insert_all(bv.exits, targets@.subrange(0, k as int)), ..bv },
                ));
            }
            assert(targets@.subrange(0, targets.len() as int) =~= targets@);
            b += 1;
        }
        assert(self@.blocks =~= all_with_targets(old(self)@.blocks));
    }

    /// Every exit of every block as a pair (source, target), in block order.
    fn collect_exit_edges(&self) -> (edges: Vec<(usize, usize)>)
        ensures
            edges@ == exit_edges(self@.blocks),
    {
        let mut edges: Vec<(usize, usize)> = Vec::new();
        let n = self.blocks.len();
        let mut b: usize = 0;
        while b < n
            invariant
                n == self.blocks.len(),
                b <= n,
                edges@ == exit_edges(self@.blocks.subrange(0, b as int)),
            decreases n - b,
        {
            assert(self@.blocks.subrange(0, b + 1).drop_last() =~= self@.blocks.subrange(0, b as int));
            let exits = list_to_vec(&self.blocks[b].exits);
            let ghost base = edges@;
            let mut k: usize = 0;
            while k < exits.len()
                invariant
                    k <= exits.len(),
                    edges@ == base + Seq::new(k as nat, |j: int| (b, exits@[j])),
                decreases exits.len() - k,
            {
                edges.push((b, exits[k]));
                k += 1;
                assert(edges@ =~= base + Seq::new(k as nat, |j: int| (b, exits@[j])));
            }
            assert(Seq::new(exits.len() as nat, |j: int| (b, exits@[j])) =~= pairs_from(b, exits@));
            b += 1;
        }
        assert(self@.blocks.subrange(0, n as int) =~= self@.blocks);
        edges
    }

    /// Every declared parent of every block as a pair (parent, block), in block order.
    fn collect_parent_edges(&self) -> (edges: Vec<(usize, usize)>)
        ensures
            edges@ == parent_edges(self@.blocks),
    {
        let mut edges: Vec<(usize, usize)> = Vec::new();
        let n = self.blocks.len();
        let mut b: usize = 0;
        while b < n
            invariant
                n == self.blocks.len(),
                b <= n,
                edges@ == parent_edges(self@.blocks.subrange(0, b as int)),
            decreases n - b,
        {
            assert(self@.blocks.subrange(0, b + 1).drop_last() =~= self@.blocks.subrange(0, b as int));
            let parents = list_to_vec(&self.blocks[b].parents);
            let ghost base = edges@;
            let mut k: usize = 0;
            while k < parents.len()
                invariant
                    k <= parents.len(),
                    edges@ == base + Seq::new(k as nat, |j: int| (parents@[j], b)),
                decreases parents.len() - k,
            {
                edges.push((parents[k], b));
                k += 1;
                assert(edges@ =~= base + Seq::new(k as nat, |j: int| (parents@[j], b)));
            }
            assert(Seq::new(parents.len() as nat, |j: int| (parents@[j], b)) =~= pairs_to(parents@, b));
            b += 1;
        }
        assert(self@.blocks.subrange(0, n as int) =~= self@.blocks);
        edges
    }

    /// Makes the edges agree in both directions: every jump target becomes an
    /// exit, every exit makes its source a parent of the target, and every
    /// declared parent gets the block as an exit.
    pub fn reconcile(&mut self)
        ensures
            final(self)@ == (ManagerView { blocks: reconciled(old(self)@.blocks), ..old(self)@ }),
    {
        self.add_jump_targets();
        let exits = self.collect_exit_edges();
        self.deliver_parents(&exits);
        let parents = self.collect_parent_edges();
        self.deliver_exits(&parents);
    }

    /// The first edge, in block order, that names a block that does not exist.
    #[verifier::loop_isolation(false)]
    pub fn first_invalid_edge(&self) -> (r: Option<CodeGenError>)
        ensures
            r == first_invalid_edge(self@.blocks, 0),
    {
        let n = self.blocks.len();
        let mut b: usize = 0;
        while b < n
            invariant
                n == self.blocks.len(),
                b <= n,
                first_invalid_edge(self@.blocks, 0) == first_invalid_edge(self@.blocks, b as int),
            decreases n - b,
        {
            let block = &self.blocks[b];
            assert(block@ == self@.blocks[b as int]);
            let parents = list_to_vec(&block.parents);
            if let Some(p) = find_out_of_range(&parents, n) {
                return Some(
                    CodeGenError {
                        block: b,
                        instruction: 0,
                        reason: CodeGenErrorReason::InvalidEdge(p),
                    },
                );
            }
            let exits = list_to_vec(&block.exits);
            if let Some(e) = find_out_of_range(&exits, n) {
                return Some(
                    CodeGenError {
                        block: b,
                        instruction: 0,
                        reason: CodeGenErrorReason::InvalidEdge(e),
                    },
                );
            }
            let m = block.code.len();
            let mut i: usize = 0;
            while i < m
                invariant
                    m == block.code.len(),
                    i <= m,
                    first_bad_target(block.code@, n as nat, 0) == first_bad_target(
                        block.code@,
                        n as nat,
                        i as int,
                    ),
                decreases m - i,
            {
                let targets = block.code[i].targets();
                if let Some(t) = find_out_of_range(&targets, n) {
                    return Some(
                        CodeGenError {
                            block: b,
                            instruction: i,
                            reason: CodeGenErrorReason::InvalidEdge(t),
                        },
                    );
                }
                i += 1;
            }
            b += 1;
        }
        None
    }

    /// Whether the program, as it stands, passes every check: every edge and jump
    /// names a block that exists, and nothing else is wrong with it either.
    pub fn is_valid(&self) -> (ok: bool)
        ensures
            ok == (edges_in_range(self@.blocks) && crate::validate::first_violation(
                self@.blocks,
                self@.start,
                self@.register_count(),
            ) is None),
    {
        proof {
            lemma_edges_in_range(self@.blocks);
        }
        match self.first_invalid_edge() {
            Some(_) => false,
            None => crate::validate::validate(self).is_none(),
        }
    }

    /// Appends an empty block and returns its index. The pending edge notices are
    /// drained first.
    pub fn new_basic_block(&mut self) -> (bi: BasicBlockIndex)
        ensures
            bi.0 == old(self)@.blocks.len(),
            final(self)@ == (ManagerView {
                blocks: old(self)@.drained().blocks.push(
                    empty_block(bi.0, old(self)@.register_count()),
                ),
                ..old(self)@.drained()
            }),
    {
        self.process_messages();
        let idx = self.blocks.len();
        proof {
            lemma_deliver_len(without_pending(old(self)@.blocks), all_pending(old(self)@.blocks));
        }
        self.blocks.push(
            BasicBlock {
                parents: list_new(),
                exits: list_new(),
                code: Vec::new(),
                self_idx: BasicBlockIndex(idx),
                outbox: Vec::new(),
                next_register: self.next_register,
            },
        );
        assert(self@.blocks =~= old(self)@.drained().blocks.push(
            empty_block(idx, old(self)@.register_count()),
        ));
        BasicBlockIndex(idx)
    }

    /// A handle on the block `bi` for building it, or `None` if there is no such
    /// block. The handle carries the manager's register counter.
    pub fn get_mut(&mut self, bi: BasicBlockIndex) -> (ret: Option<&mut BasicBlock>)
        ensures
            bi.0 >= old(self)@.blocks.len() ==> ret is None && final(self)@ == (ManagerView {
                next_register: old(self)@.register_count(),
                ..old(self)@
            }),
            bi.0 < old(self)@.blocks.len() ==> ret is Some && ret->0@ == (BlockView {
                next_register: old(self)@.register_count(),
                ..old(self)@.blocks[bi.0 as int]
            }) && final(self)@ == (ManagerView {
                next_register: old(self)@.register_count(),
                blocks: old(self)@.blocks.update(bi.0 as int, final(ret->0)@),
                ..old(self)@
            }),
    {
        self.sync_registers();
        if bi.0 < self.blocks.len() {
            let count = self.next_register;
            proof {
                let blocks = self.blocks@;
                let i = bi.0 as int;
                assert forall|nb: BasicBlock| #[trigger]
                    blocks_view(blocks.update(i, nb)) == blocks_view(blocks).update(i, nb@) by {
                    lemma_blocks_view_update(blocks, i, nb);
                }
            }
            let b = &mut self.blocks[bi.0];
            b.next_register = count;
            Some(b)
        } else {
            None
        }
    }

    /// The block `bi`, or `None` if there is no such block.
    pub fn get(&self, bi: BasicBlockIndex) -> (ret: Option<&BasicBlock>)
        ensures
            bi.0 >= self@.blocks.len() ==> ret is None,
            bi.0 < self@.blocks.len() ==> ret is Some && ret->0@ == self@.blocks[bi.0 as int],
    {
        if bi.0 < self.blocks.len() {
            Some(&self.blocks[bi.0])
        } else {
            None
        }
    }

    /// The number of blocks.
    pub fn len(&self) -> (n: usize)
        ensures
            n == self@.blocks.len(),
    {
        self.blocks.len()
    }
}

/// Delivering edge notices neither adds nor removes a block.
pub proof fn lemma_deliver_len(blocks: Seq<BlockView>, msgs: Seq<(usize, usize)>)
    ensures
        deliver(blocks, msgs).len() == blocks.len(),
    decreases msgs.len(),
{
    if msgs.len() > 0 {
        lemma_deliver_len(blocks, msgs.drop_last());
    }
}


/// What a context holds, as plain values.
pub struct ContextView {
    /// The constants, in the order they were registered.
    pub constants: Seq<Seq<u8>>,
    /// The basic blocks and the register counter.
    pub manager: ManagerView,
    /// Whether the program was finalized and not changed since.
    pub finalized: bool,
}

/// Top level type to generate IR with.
#[derive(Debug)]
pub struct Context {
    /// Global constants.
    pub(crate) constants: Vec<Vec<u8>>,
    /// The basic blocks of the control-flow graph.
    basic_blocks: BasicBlockManager,
    /// Set by `finalize`, cleared by whatever may change the program.
    finalized: bool,
}

/// The constants as plain values.
pub closed spec fn constants_view(constants: Seq<Vec<u8>>) -> Seq<Seq<u8>> {
    Seq::new(constants.len(), |i: int| constants[i]@)
}

impl View for Context {
    type V = ContextView;

    closed spec fn view(&self) -> ContextView {
        ContextView {
            constants: constants_view(self.constants@),
            manager: self.basic_blocks@,
            finalized: self.finalized,
        }
    }
}

impl Context {
    pub fn new() -> (ctx: Context)
        ensures
            ctx@ == (ContextView {
                constants: Seq::empty(),
                manager: ManagerView { start: 0, blocks: Seq::empty(), next_register: 0 },
                finalized: false,
            }),
    {
        let ctx = Self { constants: Vec::new(), basic_blocks: BasicBlockManager::new(), finalized: false };
        assert(ctx@.constants =~= Seq::empty());
        ctx
    }

    /// Registers a constant and returns its index.
    pub fn add_constant(&mut self, constant: &[u8]) -> (ci: ConstantIndex)
        ensures
            ci.0 == old(self)@.constants.len(),
            final(self)@ == (ContextView {
                constants: old(self)@.constants.push(constant@),
                finalized: false,
                ..old(self)@
            }),
    {
        let idx = self.constants.len();
        self.constants.push(vstd::slice::slice_to_vec(constant));
        self.finalized = false;
        assert(self@.constants =~= old(self)@.constants.push(constant@));
        ConstantIndex(idx)
    }

    /// The bytes of the constant `ci`, or `None` if there is no such constant.
    pub fn get_constant(&self, ci: ConstantIndex) -> (c: Option<&Vec<u8>>)
        ensures
            ci.0 >= self@.constants.len() ==> c is None,
            ci.0 < self@.constants.len() ==> c is Some && c->0@ == self@.constants[ci.0 as int],
    {
        if ci.0 < self.constants.len() {
            Some(&self.constants[ci.0])
        } else {
            None
        }
    }

    /// The number of constants registered.
    pub fn constant_count(&self) -> (n: usize)
        ensures
            n == self@.constants.len(),
    {
        self.constants.len()
    }

    /// Appends an empty block and returns its index. The first block made is the
    /// entry. The pending edge notices are drained first.
    pub fn new_basic_block(&mut self) -> (bi: BasicBlockIndex)
        ensures
            bi.0 == old(self)@.manager.blocks.len(),
            final(self)@ == (ContextView {
                manager: ManagerView {
                    blocks: old(self)@.manager.drained().blocks.push(
                        empty_block(bi.0, old(self)@.manager.register_count()),
                    ),
                    ..old(self)@.manager.drained()
                },
                finalized: false,
                ..old(self)@
            }),
    {
        self.finalized = false;
        self.basic_blocks.new_basic_block()
    }

    /// A handle on the block `bi` for building it. The handle carries the
    /// context's register counter, so the registers it hands out are fresh.
    pub fn build_basic_block(&mut self, bi: BasicBlockIndex) -> (ret: &mut BasicBlock)
        requires
            bi.0 < old(self)@.manager.blocks.len(),
        ensures
            ret@ == (BlockView {
                next_register: old(self)@.manager.register_count(),
                ..old(self)@.manager.blocks[bi.0 as int]
            }),
            final(self)@ == (ContextView {
                manager: ManagerView {
                    next_register: old(self)@.manager.register_count(),
                    blocks: old(self)@.manager.blocks.update(bi.0 as int, final(ret)@),
                    ..old(self)@.manager
                },
                finalized: false,
                ..old(self)@
            }),
    {
        self.finalized = false;
        self.basic_blocks.get_mut(bi).unwrap()
    }

    /// The block manager.
    pub fn blocks(&self) -> (m: &BasicBlockManager)
        ensures
            m@ == self@.manager,
    {
        &self.basic_blocks
    }

    /// Whether the program was finalized and not changed since.
    pub fn is_finalized(&self) -> (b: bool)
        ensures
            b == self@.finalized,
    {
        self.finalized
    }
}


/// Whether the edges agree in both directions: `b` is an exit of `a` exactly when
/// `a` is a parent of `b`.
pub open spec fn edges_symmetric(blocks: Seq<BlockView>) -> bool {
    forall|a: int, b: int|
        #![trigger blocks[a].exits.contains(b as usize)]
        #![trigger blocks[b].parents.contains(a as usize)]
        0 <= a < blocks.len() && 0 <= b < blocks.len() ==> (blocks[a].exits.contains(b as usize)
            <==> blocks[b].parents.contains(a as usize))
}

/// Whether every jump target of every block is among the exits of the block.
pub open spec fn targets_are_exits(blocks: Seq<BlockView>) -> bool {
    forall|b: int, i: int, k: int|
        0 <= b < blocks.len() && 0 <= i < blocks[b].code.len() && 0 <= k < targets_of(
            blocks[b].code[i],
        ).len() ==> blocks[b].exits.contains(#[trigger] targets_of(blocks[b].code[i])[k])
}

/// What `insert_unique` holds.
pub proof fn lemma_insert_unique(s: Seq<usize>, x: usize)
    ensures
        forall|y: usize| insert_unique(s, x).contains(y) <==> s.contains(y) || y == x,
{
    assert forall|y: usize| insert_unique(s, x).contains(y) <==> s.contains(y) || y == x by {
        if s.contains(x) {
        } else {
            let t = s.push(x);
            if t.contains(y) {
                let j = choose|j: int| 0 <= j < t.len() && t[j] == y;
                if j < s.len() {
                    assert(s[j] == y);
                }
            }
            if s.contains(y) {
                let j = choose|j: int| 0 <= j < s.len() && s[j] == y;
                assert(t[j] == y);
            }
            assert(t[s.len() as int] == x);
        }
    }
}

/// What `insert_all` holds.
pub proof fn lemma_insert_all(s: Seq<usize>, xs: Seq<usize>)
    ensures
        forall|y: usize| insert_all(s, xs).contains(y) <==> s.contains(y) || xs.contains(y),
    decreases xs.len(),
{
    if xs.len() > 0 {
        lemma_insert_all(s, xs.drop_last());
        lemma_insert_unique(insert_all(s, xs.drop_last()), xs.last());
        assert forall|y: usize| insert_all(s, xs).contains(y) <==> s.contains(y) || xs.contains(
            y,
        ) by {
            if xs.contains(y) {
                let j = choose|j: int| 0 <= j < xs.len() && xs[j] == y;
                if j < xs.len() - 1 {
                    assert(xs.drop_last()[j] == y);
                }
            }
            if xs.drop_last().contains(y) {
                let j = choose|j: int| 0 <= j < xs.drop_last().len() && xs.drop_last()[j] == y;
                assert(xs[j] == y);
            }
            assert(xs[xs.len() - 1] == xs.last());
        }
    }
}

/// The jump targets of every instruction are among `flat_targets`.
pub proof fn lemma_flat_targets(code: Seq<IR>, i: int, k: int)
    requires
        0 <= i < code.len(),
        0 <= k < targets_of(code[i]).len(),
    ensures
        flat_targets(code).contains(targets_of(code[i])[k]),
    decreases code.len(),
{
    let head = flat_targets(code.drop_last());
    let tail = targets_of(code.last());
    if i == code.len() - 1 {
        assert((head + tail)[head.len() + k] == tail[k]);
    } else {
        lemma_flat_targets(code.drop_last(), i, k);
        let x = targets_of(code[i])[k];
        let j = choose|j: int| 0 <= j < head.len() && head[j] == x;
        assert((head + tail)[j] == x);
    }
}

/// What delivering edge notices changes: the parents of a block gain the sources
/// of the notices for it, and nothing else changes.
pub proof fn lemma_deliver(blocks: Seq<BlockView>, msgs: Seq<(usize, usize)>)
    requires
        blocks.len() <= usize::MAX,
    ensures
        deliver(blocks, msgs).len() == blocks.len(),
        forall|t: int|
            0 <= t < blocks.len() ==> (#[trigger] deliver(blocks, msgs)[t]) == (BlockView {
                parents: deliver(blocks, msgs)[t].parents,
                ..blocks[t]
            }),
        forall|t: int, s: usize|
            0 <= t < blocks.len() ==> (#[trigger] deliver(blocks, msgs)[t].parents.contains(s)
                <==> blocks[t].parents.contains(s) || msgs.contains((s, t as usize))),
    decreases msgs.len(),
{
    if msgs.len() > 0 {
        let prev = deliver(blocks, msgs.drop_last());
        let m = msgs.last();
        lemma_deliver(blocks, msgs.drop_last());
        if m.1 < prev.len() {
            lemma_insert_unique(prev[m.1 as int].parents, m.0);
        }
        assert forall|t: int, s: usize| 0 <= t < blocks.len() implies (#[trigger] deliver(
            blocks,
            msgs,
        )[t].parents.contains(s) <==> blocks[t].parents.contains(s) || msgs.contains(
            (s, t as usize),
        )) by {
            let now = deliver(blocks, msgs);
            let tu = t as usize;
            assert(prev[t].parents.contains(s) <==> blocks[t].parents.contains(s)
                || msgs.drop_last().contains((s, tu)));
            if m.1 < prev.len() && m.1 == t {
                assert(now[t].parents == insert_unique(prev[t].parents, m.0));
                assert(now[t].parents.contains(s) <==> prev[t].parents.contains(s) || s == m.0);
            } else {
                assert(now[t] == prev[t]);
            }
            if msgs.contains((s, t as usize)) {
                let j = choose|j: int| 0 <= j < msgs.len() && msgs[j] == (s, t as usize);
                if j < msgs.len() - 1 {
                    assert(msgs.drop_last()[j] == (s, t as usize));
                }
            }
            if msgs.drop_last().contains((s, t as usize)) {
                let j = choose|j: int|
                    0 <= j < msgs.drop_last().len() && msgs.drop_last()[j] == (s, t as usize);
                assert(msgs[j] == (s, t as usize));
            }
            assert(msgs[msgs.len() - 1] == m);
        }
    }
}

/// What recording exits changes: the exits of a block gain the targets of the
/// pairs that start at it, and nothing else changes.
pub proof fn lemma_deliver_back(blocks: Seq<BlockView>, msgs: Seq<(usize, usize)>)
    requires
        blocks.len() <= usize::MAX,
    ensures
        deliver_back(blocks, msgs).len() == blocks.len(),
        forall|a: int|
            0 <= a < blocks.len() ==> (#[trigger] deliver_back(blocks, msgs)[a]) == (BlockView {
                exits: deliver_back(blocks, msgs)[a].exits,
                ..blocks[a]
            }),
        forall|a: int, t: usize|
            0 <= a < blocks.len() ==> (#[trigger] deliver_back(blocks, msgs)[a].exits.contains(t)
                <==> blocks[a].exits.contains(t) || msgs.contains((a as usize, t))),
    decreases msgs.len(),
{
    if msgs.len() > 0 {
        let prev = deliver_back(blocks, msgs.drop_last());
        let m = msgs.last();
        lemma_deliver_back(blocks, msgs.drop_last());
        if m.0 < prev.len() {
            lemma_insert_unique(prev[m.0 as int].exits, m.1);
        }
        assert forall|a: int, t: usize| 0 <= a < blocks.len() implies (#[trigger] deliver_back(
            blocks,
            msgs,
        )[a].exits.contains(t) <==> blocks[a].exits.contains(t) || msgs.contains(
            (a as usize, t),
        )) by {
            let now = deliver_back(blocks, msgs);
            let au = a as usize;
            assert(prev[a].exits.contains(t) <==> blocks[a].exits.contains(t)
                || msgs.drop_last().contains((au, t)));
            if m.0 < prev.len() && m.0 == a {
                assert(now[a].exits == insert_unique(prev[a].exits, m.1));
                assert(now[a].exits.contains(t) <==> prev[a].exits.contains(t) || t == m.1);
            } else {
                assert(now[a] == prev[a]);
            }
            if msgs.contains((a as usize, t)) {
                let j = choose|j: int| 0 <= j < msgs.len() && msgs[j] == (a as usize, t);
                if j < msgs.len() - 1 {
                    assert(msgs.drop_last()[j] == (a as usize, t));
                }
            }
            if msgs.drop_last().contains((a as usize, t)) {
                let j = choose|j: int|
                    0 <= j < msgs.drop_last().len() && msgs.drop_last()[j] == (a as usize, t);
                assert(msgs[j] == (a as usize, t));
            }
            assert(msgs[msgs.len() - 1] == m);
        }
    }
}

/// The exit edges are the pairs of a block and one of its exits.
pub proof fn lemma_exit_edges(blocks: Seq<BlockView>)
    requires
        blocks.len() <= usize::MAX,
    ensures
        forall|a: usize, e: usize| #[trigger]
            exit_edges(blocks).contains((a, e)) <==> a < blocks.len() && blocks[a as int].exits.contains(
                e,
            ),
    decreases blocks.len(),
{
    if blocks.len() > 0 {
        lemma_exit_edges(blocks.drop_last());
        let head = exit_edges(blocks.drop_last());
        let last = (blocks.len() - 1) as usize;
        let tail = pairs_from(last, blocks.last().exits);
        assert forall|a: usize, e: usize| #[trigger]
            exit_edges(blocks).contains((a, e)) <==> a < blocks.len() && blocks[a as int].exits.contains(
                e,
            ) by {
            if (head + tail).contains((a, e)) {
                let j = choose|j: int| 0 <= j < (head + tail).len() && (head + tail)[j] == (a, e);
                if j < head.len() {
                    assert(head[j] == (a, e));
                    assert(head.contains((a, e)));
                    assert(blocks.drop_last()[a as int] == blocks[a as int]);
                } else {
                    assert(tail[j - head.len()] == (a, e));
                    assert(blocks.last().exits[j - head.len()] == e);
                }
            }
            if a < blocks.len() && blocks[a as int].exits.contains(e) {
                if a == last {
                    let k = choose|k: int| 0 <= k < blocks.last().exits.len() && blocks.last().exits[k] == e;
                    assert(tail[k] == (a, e));
                    assert((head + tail)[head.len() + k] == (a, e));
                } else {
                    assert(blocks.drop_last()[a as int] == blocks[a as int]);
                    assert(head.contains((a, e)));
                    let j = choose|j: int| 0 <= j < head.len() && head[j] == (a, e);
                    assert((head + tail)[j] == (a, e));
                }
            }
        }
    }
}

/// The parent edges are the pairs of a declared parent and its block.
pub proof fn lemma_parent_edges(blocks: Seq<BlockView>)
    requires
        blocks.len() <= usize::MAX,
    ensures
        forall|p: usize, b: usize| #[trigger]
            parent_edges(blocks).contains((p, b)) <==> b < blocks.len() && blocks[b as int].parents.contains(
                p,
            ),
    decreases blocks.len(),
{
    if blocks.len() > 0 {
        lemma_parent_edges(blocks.drop_last());
        let head = parent_edges(blocks.drop_last());
        let last = (blocks.len() - 1) as usize;
        let tail = pairs_to(blocks.last().parents, last);
        assert forall|p: usize, b: usize| #[trigger]
            parent_edges(blocks).contains((p, b)) <==> b < blocks.len() && blocks[b as int].parents.contains(
                p,
            ) by {
            if (head + tail).contains((p, b)) {
                let j = choose|j: int| 0 <= j < (head + tail).len() && (head + tail)[j] == (p, b);
                if j < head.len() {
                    assert(head[j] == (p, b));
                    assert(head.contains((p, b)));
                    assert(blocks.drop_last()[b as int] == blocks[b as int]);
                } else {
                    assert(tail[j - head.len()] == (p, b));
                    assert(blocks.last().parents[j - head.len()] == p);
                }
            }
            if b < blocks.len() && blocks[b as int].parents.contains(p) {
                if b == last {
                    let k = choose|k: int|
                        0 <= k < blocks.last().parents.len() && blocks.last().parents[k] == p;
                    assert(tail[k] == (p, b));
                    assert((head + tail)[head.len() + k] == (p, b));
                } else {
                    assert(blocks.drop_last()[b as int] == blocks[b as int]);
                    assert(head.contains((p, b)));
                    let j = choose|j: int| 0 <= j < head.len() && head[j] == (p, b);
                    assert((head + tail)[j] == (p, b));
                }
            }
        }
    }
}

/// After the edges are reconciled, they agree in both directions and hold every
/// jump target; the code of every block is as before.
pub proof fn lemma_reconciled(blocks: Seq<BlockView>)
    requires
        blocks.len() <= usize::MAX,
    ensures
        reconciled(blocks).len() == blocks.len(),
        edges_symmetric(reconciled(blocks)),
        targets_are_exits(reconciled(blocks)),
        forall|b: int| 0 <= b < blocks.len() ==> (#[trigger] reconciled(blocks)[b]).code == blocks[b].code,
{
    let targeted = all_with_targets(blocks);
    let mirrored = deliver(targeted, exit_edges(targeted));
    let done = deliver_back(mirrored, parent_edges(mirrored));
    lemma_deliver(targeted, exit_edges(targeted));
    lemma_deliver_back(mirrored, parent_edges(mirrored));
    lemma_exit_edges(targeted);
    lemma_parent_edges(mirrored);
    assert forall|a: int, b: int|
        #![trigger done[a].exits.contains(b as usize)]
        #![trigger done[b].parents.contains(a as usize)]
        0 <= a < done.len() && 0 <= b < done.len() implies (done[a].exits.contains(b as usize)
        <==> done[b].parents.contains(a as usize)) by {
        let au = a as usize;
        let bu = b as usize;
        assert(done[b] == (BlockView { exits: done[b].exits, ..mirrored[b] }));
        assert(mirrored[a] == (BlockView { parents: mirrored[a].parents, ..targeted[a] }));
        assert(done[a].exits.contains(bu) <==> mirrored[a].exits.contains(bu) || parent_edges(
            mirrored,
        ).contains((au, bu)));
        assert(parent_edges(mirrored).contains((au, bu)) <==> mirrored[b].parents.contains(au));
        assert(mirrored[b].parents.contains(au) <==> targeted[b].parents.contains(au) || exit_edges(
            targeted,
        ).contains((au, bu)));
        assert(exit_edges(targeted).contains((au, bu)) <==> targeted[a].exits.contains(bu));
    }
    assert forall|b: int, i: int, k: int|
        0 <= b < done.len() && 0 <= i < done[b].code.len() && 0 <= k < targets_of(
            done[b].code[i],
        ).len() implies done[b].exits.contains(#[trigger] targets_of(done[b].code[i])[k]) by {
        assert(done[b] == (BlockView { exits: done[b].exits, ..mirrored[b] }));
        assert(mirrored[b] == (BlockView { parents: mirrored[b].parents, ..targeted[b] }));
        let x = targets_of(blocks[b].code[i])[k];
        lemma_flat_targets(blocks[b].code, i, k);
        lemma_insert_all(blocks[b].exits, flat_targets(blocks[b].code));
        assert(targeted[b].exits.contains(x));
        assert(done[b].exits.contains(x) <==> mirrored[b].exits.contains(x) || parent_edges(
            mirrored,
        ).contains((b as usize, x)));
    }
    assert forall|b: int| 0 <= b < blocks.len() implies (#[trigger] done[b]).code
        == blocks[b].code by {
        assert(done[b] == (BlockView { exits: done[b].exits, ..mirrored[b] }));
        assert(mirrored[b] == (BlockView { parents: mirrored[b].parents, ..targeted[b] }));
    }
}


/// Reconciling edges that are in range leaves them in range.
pub proof fn lemma_reconciled_in_range(blocks: Seq<BlockView>)
    requires
        blocks.len() <= usize::MAX,
        edges_in_range(blocks),
    ensures
        edges_in_range(reconciled(blocks)),
{
    let n = blocks.len();
    let targeted = all_with_targets(blocks);
    let mirrored = deliver(targeted, exit_edges(targeted));
    let done = deliver_back(mirrored, parent_edges(mirrored));
    lemma_deliver(targeted, exit_edges(targeted));
    lemma_deliver_back(mirrored, parent_edges(mirrored));
    lemma_exit_edges(targeted);
    lemma_parent_edges(mirrored);
    assert forall|b: int| 0 <= b < done.len() implies #[trigger] block_edges_in_range(
        done[b],
        done.len(),
    ) by {
        assert(block_edges_in_range(blocks[b], n));
        assert(done[b] == (BlockView { exits: done[b].exits, ..mirrored[b] }));
        assert(mirrored[b] == (BlockView { parents: mirrored[b].parents, ..targeted[b] }));
        lemma_insert_all(blocks[b].exits, flat_targets(blocks[b].code));
        assert forall|x: usize| targeted[b].exits.contains(x) implies x < n by {
            if blocks[b].exits.contains(x) {
                let k = choose|k: int| 0 <= k < blocks[b].exits.len() && blocks[b].exits[k] == x;
                assert(blocks[b].exits[k] < n);
            } else {
                lemma_flat_targets_in_range(blocks[b].code, n, x);
            }
        }
        assert forall|k: int| 0 <= k < done[b].parents.len() implies #[trigger] done[b].parents[k]
            < n by {
            let x = done[b].parents[k];
            assert(mirrored[b].parents.contains(x));
            if targeted[b].parents.contains(x) {
                let j = choose|j: int| 0 <= j < blocks[b].parents.len() && blocks[b].parents[j] == x;
                assert(blocks[b].parents[j] < n);
            } else {
                assert(exit_edges(targeted).contains((x, b as usize)));
            }
        }
        assert forall|k: int| 0 <= k < done[b].exits.len() implies #[trigger] done[b].exits[k]
            < n by {
            let x = done[b].exits[k];
            assert(done[b].exits.contains(x));
            if mirrored[b].exits.contains(x) {
                assert(targeted[b].exits.contains(x));
            } else {
                assert(parent_edges(mirrored).contains((b as usize, x)));
            }
        }
    }
}

/// The jump targets of code whose targets are all below `n` are below `n`.
pub proof fn lemma_flat_targets_in_range(code: Seq<IR>, n: nat, x: usize)
    requires
        forall|i: int, k: int|
            0 <= i < code.len() && 0 <= k < targets_of(code[i]).len() ==> #[trigger] targets_of(
                code[i],
            )[k] < n,
        flat_targets(code).contains(x),
    ensures
        x < n,
    decreases code.len(),
{
    if code.len() > 0 {
        let head = flat_targets(code.drop_last());
        let tail = targets_of(code.last());
        let j = choose|j: int| 0 <= j < (head + tail).len() && (head + tail)[j] == x;
        if j < head.len() {
            assert(head[j] == x);
            assert forall|i: int, k: int|
                0 <= i < code.drop_last().len() && 0 <= k < targets_of(code.drop_last()[i]).len() implies #[trigger] targets_of(
                code.drop_last()[i],
            )[k] < n by {
                assert(code.drop_last()[i] == code[i]);
            }
            lemma_flat_targets_in_range(code.drop_last(), n, x);
        } else {
            assert(tail[j - head.len()] == x);
            assert(targets_of(code[code.len() - 1])[j - head.len()] < n);
        }
    }
}

/// What `finalize` makes of a context: the context after it, and its result.
///
/// The edge notices are drained. Where an edge or a jump then names a block that
/// does not exist, that is the error and nothing else changes. Else the edges are
/// reconciled, and the result is the first violation of the program; the context
/// is finalized when there is none.
pub open spec fn finalize_outcome(before: ContextView, after: ContextView, r: Result<(), CodeGenError>) -> bool {
    let drained = before.manager.drained();
    &&& after.constants == before.constants
    &&& match first_invalid_edge(drained.blocks, 0) {
        Some(e) => r == Err::<(), CodeGenError>(e) && !after.finalized && after.manager == drained,
        None => {
            &&& after.manager == (ManagerView { blocks: reconciled(drained.blocks), ..drained })
            &&& match crate::validate::first_violation(
                after.manager.blocks,
                after.manager.start,
                after.manager.register_count(),
            ) {
                Some(e) => r == Err::<(), CodeGenError>(e) && !after.finalized,
                None => r is Ok && after.finalized,
            }
        },
    }
}

impl Context {
    /// Ends the building of the program: drains the pending edge notices, makes
    /// the edges agree in both directions and checks the program.
    ///
    /// An edge or a jump that names a block that does not exist is reported
    /// before the edges are reconciled; every other violation after. The context
    /// is finalized when nothing is wrong.
    pub fn finalize(&mut self) -> (r: Result<(), CodeGenError>)
        ensures
            finalize_outcome(old(self)@, final(self)@, r),
            first_invalid_edge(old(self)@.manager.drained().blocks, 0) is None ==> edges_symmetric(
                final(self)@.manager.blocks,
            ) && targets_are_exits(final(self)@.manager.blocks),
            r is Ok ==> crate::validate::well_formed(
                final(self)@.manager.blocks,
                final(self)@.manager.start,
            ),
    {
        self.finalized = false;
        self.basic_blocks.finalize();
        if let Some(e) = self.basic_blocks.first_invalid_edge() {
            return Err(e);
        }
        proof {
            assert(self@.manager.blocks.len() == self.basic_blocks.blocks.len());
            lemma_edges_in_range(self@.manager.blocks);
            lemma_reconciled_in_range(self@.manager.blocks);
            lemma_reconciled(self@.manager.blocks);
        }
        self.basic_blocks.reconcile();
        match crate::validate::validate(&self.basic_blocks) {
            Some(e) => Err(e),
            None => {
                self.finalized = true;
                Ok(())
            },
        }
    }
}

impl BasicBlockManager {
    /// Gets the manager ready for further processing: the pending edge notices
    /// are drained.
    pub fn finalize(&mut self)
        ensures
            final(self)@ == old(self)@.drained(),
    {
        self.process_messages();
    }
}


/// The register count is the greatest of the manager's own counter and the
/// counters of the blocks.
pub proof fn lemma_register_count(blocks: Seq<BlockView>, base: usize)
    ensures
        highest_register(blocks, base) >= base,
        forall|b: int| 0 <= b < blocks.len() ==> highest_register(blocks, base) >= (#[trigger] blocks[b]).next_register,
        highest_register(blocks, base) == base || exists|b: int|
            0 <= b < blocks.len() && highest_register(blocks, base) == (#[trigger] blocks[b]).next_register,
    decreases blocks.len(),
{
    if blocks.len() > 0 {
        let rest = blocks.drop_last();
        lemma_register_count(rest, base);
        assert forall|b: int| 0 <= b < blocks.len() implies highest_register(blocks, base) >= (
        #[trigger] blocks[b]).next_register by {
            if b < rest.len() {
                assert(rest[b] == blocks[b]);
            }
        }
        let h = highest_register(rest, base);
        if blocks.last().next_register > h {
            assert(blocks[blocks.len() - 1].next_register == highest_register(blocks, base));
        } else if h != base {
            let b = choose|b: int| 0 <= b < rest.len() && h == (#[trigger] rest[b]).next_register;
            assert(blocks[b].next_register == highest_register(blocks, base));
        }
    }
}

/// Where no block has an edge notice pending, draining changes no block.
pub proof fn lemma_drained_idle(m: ManagerView)
    requires
        forall|b: int| 0 <= b < m.blocks.len() ==> (#[trigger] m.blocks[b]).pending.len() == 0,
    ensures
        m.drained().blocks == m.blocks,
        m.drained().register_count() == m.register_count(),
{
    lemma_nothing_pending(m.blocks);
    assert(without_pending(m.blocks) =~= m.blocks) by {
        assert forall|b: int| 0 <= b < m.blocks.len() implies without_pending(m.blocks)[b]
            == m.blocks[b] by {
            assert(m.blocks[b].pending =~= Seq::empty());
        }
    }
    lemma_register_count(m.blocks, m.next_register);
    lemma_register_count(m.blocks, m.register_count());
}

/// Blocks without pending edge notices have none between them.
pub proof fn lemma_nothing_pending(blocks: Seq<BlockView>)
    requires
        forall|b: int| 0 <= b < blocks.len() ==> (#[trigger] blocks[b]).pending.len() == 0,
    ensures
        all_pending(blocks) == Seq::<(usize, usize)>::empty(),
    decreases blocks.len(),
{
    if blocks.len() > 0 {
        assert forall|b: int| 0 <= b < blocks.drop_last().len() implies (#[trigger] blocks.drop_last()[b]).pending.len()
            == 0 by {
            assert(blocks.drop_last()[b] == blocks[b]);
        }
        lemma_nothing_pending(blocks.drop_last());
        assert(blocks[blocks.len() - 1].pending.len() == 0);
        assert(all_pending(blocks) =~= Seq::<(usize, usize)>::empty());
    }
}


/// Whether every register that an instruction of the blocks defines is at most
/// the register count: it was handed out by the builder.
pub open spec fn registers_within(m: ManagerView) -> bool {
    forall|b: int, i: int|
        0 <= b < m.blocks.len() && 0 <= i < m.blocks[b].code.len() && (#[trigger] defined_register(
            m.blocks[b].code[i],
        )) is Some ==> defined_register(m.blocks[b].code[i])->0 <= m.register_count()
}

/// The manager after an instruction was appended through a handle on block `bi`
/// that took one register from the counter.
pub open spec fn built(m: ManagerView, bi: int, inst: IR) -> ManagerView {
    ManagerView {
        next_register: m.register_count(),
        blocks: m.blocks.update(
            bi,
            BlockView {
                code: m.blocks[bi].code.push(inst),
                next_register: (m.register_count() + 1) as usize,
                ..m.blocks[bi]
            },
        ),
        ..m
    }
}

/// A register that the builder hands out is fresh: where every register defined
/// in the context was handed out by the builder, no instruction of the context
/// defines the next one, and after the instruction that defines it was appended
/// exactly that instruction does.
pub proof fn lemma_built_register_is_fresh(m: ManagerView, bi: int, inst: IR)
    requires
        registers_within(m),
        0 <= bi < m.blocks.len(),
        m.register_count() < usize::MAX,
        defined_register(inst) == Some((m.register_count() + 1) as usize),
    ensures
        forall|b: int, i: int|
            0 <= b < m.blocks.len() && 0 <= i < m.blocks[b].code.len() ==> #[trigger] defined_register(
                m.blocks[b].code[i],
            ) != Some((m.register_count() + 1) as usize),
        built(m, bi, inst).register_count() == m.register_count() + 1,
        registers_within(built(m, bi, inst)),
        forall|b: int, i: int|
            0 <= b < m.blocks.len() && 0 <= i < built(m, bi, inst).blocks[b].code.len() && (
            #[trigger] defined_register(built(m, bi, inst).blocks[b].code[i])) == Some(
                (m.register_count() + 1) as usize,
            ) ==> b == bi && i == m.blocks[bi].code.len(),
{
    let count = m.register_count();
    let after = built(m, bi, inst);
    lemma_register_count(m.blocks, m.next_register);
    lemma_register_count(after.blocks, after.next_register);
    assert(after.blocks[bi].next_register == count + 1);
    assert(after.register_count() == count + 1) by {
        if after.register_count() != after.next_register {
            let b = choose|b: int|
                0 <= b < after.blocks.len() && after.register_count() == (#[trigger] after.blocks[b]).next_register;
            if b != bi {
                assert(after.blocks[b] == m.blocks[b]);
            }
        }
    }
    assert forall|b: int, i: int|
        0 <= b < after.blocks.len() && 0 <= i < after.blocks[b].code.len() && (#[trigger] defined_register(
            after.blocks[b].code[i],
        )) is Some implies defined_register(after.blocks[b].code[i])->0 <= after.register_count() by {
        if b == bi && i == m.blocks[bi].code.len() {
        } else {
            assert(after.blocks[b].code[i] == m.blocks[b].code[i]);
            assert(defined_register(m.blocks[b].code[i]) is Some);
        }
    }
    assert forall|b: int, i: int|
        0 <= b < m.blocks.len() && 0 <= i < after.blocks[b].code.len() && (#[trigger] defined_register(
            after.blocks[b].code[i],
        )) == Some((count + 1) as usize) implies b == bi && i == m.blocks[bi].code.len() by {
        if !(b == bi && i == m.blocks[bi].code.len()) {
            assert(after.blocks[b].code[i] == m.blocks[b].code[i]);
            assert(defined_register(m.blocks[b].code[i]) is Some);
        }
    }
}

} // verus!
