//! The checks a program must pass before code is generated for it.

use crate::codegen::x86_64::{CodeGenError, CodeGenErrorReason};
use crate::graph::{
    dominance, edge_set, has_edge, reachable, strict_dominators_of, strictly_dominates,
};
use crate::ir::{
    edges_in_range, is_terminator, registers_read, BasicBlockIndex, BasicBlockManager, BlockView,
    PrimitiveValue, Value, IR,
};
use crate::reg_alloc::{
    before, cfg_edge, compute_graph, defined_in_before, defines_at, dominators_ok,
    first_register_fault, is_back_edge, lemma_depth_has_walk, lemma_walk_depth, read_in_before,
    reads_at, single_definition, GraphData, GraphQuery,
};
use vstd::prelude::*;

verus! {

/// The first instruction, in program order from (`b`, `i`), at which `fault`
/// finds something wrong, with what it finds.
pub open spec fn first_fault(
    blocks: Seq<BlockView>,
    fault: spec_fn(int, int) -> Option<CodeGenErrorReason>,
    b: int,
    i: int,
) -> Option<CodeGenError>
    decreases blocks.len() - b, (if 0 <= b < blocks.len() {
            blocks[b].code.len() - i
        } else {
            0
        }),
{
    if b < 0 || b >= blocks.len() || i < 0 {
        None
    } else if i >= blocks[b].code.len() {
        first_fault(blocks, fault, b + 1, 0)
    } else {
        match fault(b, i) {
            Some(reason) => Some(
                CodeGenError { block: b as usize, instruction: i as usize, reason },
            ),
            None => first_fault(blocks, fault, b, i + 1),
        }
    }
}

/// No fault is found exactly when `fault` finds nothing at any instruction.
pub proof fn lemma_first_fault(
    blocks: Seq<BlockView>,
    fault: spec_fn(int, int) -> Option<CodeGenErrorReason>,
    b: int,
    i: int,
)
    requires
        0 <= b,
        0 <= i,
    ensures
        first_fault(blocks, fault, b, i) is None <==> forall|b1: int, i1: int|
            #![trigger fault(b1, i1)]
            (b < b1 || (b == b1 && i <= i1)) && b1 < blocks.len() && 0 <= i1 < blocks[b1].code.len()
                ==> fault(b1, i1) is None,
    decreases blocks.len() - b, (if 0 <= b < blocks.len() {
            blocks[b].code.len() - i
        } else {
            0
        }),
{
    if b >= blocks.len() {
    } else if i >= blocks[b].code.len() {
        lemma_first_fault(blocks, fault, b + 1, 0);
    } else {
        lemma_first_fault(blocks, fault, b, i + 1);
    }
}

/// A control-flow terminator before instruction `i` of block `b`: an instruction
/// follows the end of its block.
pub open spec fn terminator_fault(blocks: Seq<BlockView>) -> spec_fn(int, int) -> Option<
    CodeGenErrorReason,
> {
    |b: int, i: int|
        if i > 0 && is_terminator(blocks[b].code[i - 1]) {
            Some(CodeGenErrorReason::MisplacedTerminator)
        } else {
            None
        }
}

/// Whether every block ends in at most one terminator and nothing follows it.
pub open spec fn terminators_last(blocks: Seq<BlockView>) -> bool {
    forall|b: int, i: int|
        #![trigger blocks[b].code[i]]
        0 <= b < blocks.len() && 0 <= i < blocks[b].code.len() - 1 ==> !is_terminator(
            blocks[b].code[i],
        )
}

/// The first instruction that follows a control-flow terminator in its block.
pub fn find_misplaced_terminator(bbm: &BasicBlockManager) -> (r: Option<CodeGenError>)
    ensures
        r == first_fault(bbm@.blocks, terminator_fault(bbm@.blocks), 0, 0),
{
    let ghost blocks = bbm@.blocks;
    let ghost fault = terminator_fault(blocks);
    let n = bbm.len();
    let mut b: usize = 0;
    while b < n
        invariant
            b <= n,
            n == blocks.len(),
            blocks == bbm@.blocks,
            fault == terminator_fault(blocks),
            first_fault(blocks, fault, 0, 0) == first_fault(blocks, fault, b as int, 0),
        decreases n - b,
    {
        let code = bbm.get(BasicBlockIndex(b)).unwrap().instructions();
        let mut i: usize = 0;
        while i < code.len()
            invariant
                i <= code.len(),
                b < n,
                n == blocks.len(),
                code@ == blocks[b as int].code,
                blocks == bbm@.blocks,
                fault == terminator_fault(blocks),
                first_fault(blocks, fault, 0, 0) == first_fault(blocks, fault, b as int, i as int),
            decreases code.len() - i,
        {
            if i > 0 && code[i - 1].terminates() {
                assert(fault(b as int, i as int) == Some(CodeGenErrorReason::MisplacedTerminator));
                return Some(
                    CodeGenError {
                        block: b,
                        instruction: i,
                        reason: CodeGenErrorReason::MisplacedTerminator,
                    },
                );
            }
            assert(fault(b as int, i as int) is None);
            i += 1;
        }
        b += 1;
    }
    None
}

/// The edges of the control-flow graph of the blocks, as pairs (source, target).
pub open spec fn cfg(blocks: Seq<BlockView>) -> Set<(int, int)> {
    Set::new(|p: (int, int)| cfg_edge(blocks, p.0, p.1))
}

/// The first block from `b` on that is the target of an edge and cannot be
/// reached from block `start`.
pub open spec fn first_unreachable(blocks: Seq<BlockView>, start: int, b: int) -> Option<CodeGenError>
    decreases blocks.len() - b,
{
    if b < 0 || b >= blocks.len() {
        None
    } else if !reachable(cfg(blocks), start, b) && blocks[b].parents.len() > 0 {
        Some(
            CodeGenError {
                block: b as usize,
                instruction: 0,
                reason: CodeGenErrorReason::UnreachableBlock(b as usize),
            },
        )
    } else {
        first_unreachable(blocks, start, b + 1)
    }
}

/// Whether every block that is the target of an edge can be reached from block
/// `start`.
pub open spec fn targets_reachable(blocks: Seq<BlockView>, start: int) -> bool {
    forall|b: int|
        0 <= b < blocks.len() && blocks[b].parents.len() > 0 ==> #[trigger] reachable(
            cfg(blocks),
            start,
            b,
        )
}

/// No block is reported exactly when every target of an edge can be reached.
pub proof fn lemma_first_unreachable(blocks: Seq<BlockView>, start: int, b: int)
    requires
        0 <= b,
    ensures
        first_unreachable(blocks, start, b) is None <==> forall|x: int|
            b <= x < blocks.len() && blocks[x].parents.len() > 0 ==> #[trigger] reachable(
                cfg(blocks),
                start,
                x,
            ),
    decreases blocks.len() - b,
{
    if b < blocks.len() {
        lemma_first_unreachable(blocks, start, b + 1);
    }
}

/// Whether the analyses in `gq` are those of the control-flow graph of `blocks`
/// from the entry block `start`.
pub open spec fn analyses(gq: GraphQuery, blocks: Seq<BlockView>, start: int) -> bool {
    &&& gq.wf()
    &&& gq.graph_data.root == start
    &&& gq.graph_data.node_count() == blocks.len()
    &&& forall|a: int, b: int| has_edge(gq.graph_data.edges(), a, b) <==> cfg_edge(blocks, a, b)
}

/// The graph of the analyses has the edges of the control-flow graph.
pub proof fn lemma_same_edges(gq: GraphQuery, blocks: Seq<BlockView>, start: int)
    requires
        analyses(gq, blocks, start),
    ensures
        edge_set(gq.graph_data.edges()) == cfg(blocks),
{
    assert(edge_set(gq.graph_data.edges()) =~= cfg(blocks));
}

/// The first block that is the target of an edge and cannot be reached from the
/// entry block.
pub fn find_unreachable(bbm: &BasicBlockManager, gq: &GraphQuery) -> (r: Option<CodeGenError>)
    requires
        analyses(*gq, bbm@.blocks, bbm@.start as int),
    ensures
        r == first_unreachable(bbm@.blocks, bbm@.start as int, 0),
{
    let ghost blocks = bbm@.blocks;
    let ghost start = bbm@.start as int;
    proof {
        lemma_same_edges(*gq, blocks, start);
    }
    let n = bbm.len();
    let mut b: usize = 0;
    while b < n
        invariant
            b <= n,
            n == blocks.len(),
            blocks == bbm@.blocks,
            start == bbm@.start,
            edge_set(gq.graph_data.edges()) == cfg(blocks),
            dominators_ok(gq.dominators, gq.graph_data.edges(), start),
            first_unreachable(blocks, start, 0) == first_unreachable(blocks, start, b as int),
        decreases n - b,
    {
        if strict_dominators_of(&gq.dominators, b).is_none() && bbm.get(
            BasicBlockIndex(b),
        ).unwrap().parents().len() > 0 {
            return Some(
                CodeGenError {
                    block: b,
                    instruction: 0,
                    reason: CodeGenErrorReason::UnreachableBlock(b),
                },
            );
        }
        b += 1;
    }
    None
}

/// The type of an operand, as far as it is known: an immediate has its own, a
/// register the one in the table.
pub open spec fn value_type(table: Seq<Option<PrimitiveValue>>, v: Value) -> Option<PrimitiveValue> {
    match v {
        Value::Immediate { _type, .. } => Some(_type),
        Value::Register(r) => if r.0 < table.len() {
            table[r.0 as int]
        } else {
            None
        },
    }
}

/// The table with the type of register `r` set, where the table has a place for it.
pub open spec fn with_type(
    table: Seq<Option<PrimitiveValue>>,
    r: usize,
    t: Option<PrimitiveValue>,
) -> Seq<Option<PrimitiveValue>> {
    if r < table.len() {
        table.update(r as int, t)
    } else {
        table
    }
}

/// The table after an instruction: a stack reservation gives its register the
/// reserved type, arithmetic the type of the first operand, a load the type of
/// the pointer it reads through.
pub open spec fn types_after(table: Seq<Option<PrimitiveValue>>, inst: IR) -> Seq<Option<PrimitiveValue>> {
    match inst {
        IR::Alloca { dest_register, _type, .. } => with_type(table, dest_register.0, Some(_type)),
        IR::Add { dest_register, src1, .. } => with_type(
            table,
            dest_register.0,
            value_type(table, src1),
        ),
        IR::Subtract { dest_register, src1, .. } => with_type(
            table,
            dest_register.0,
            value_type(table, src1),
        ),
        IR::Multiply { dest_register, src1, .. } => with_type(
            table,
            dest_register.0,
            value_type(table, src1),
        ),
        IR::Divide { dest_register, src1, .. } => with_type(
            table,
            dest_register.0,
            value_type(table, src1),
        ),
        IR::Load { dest_register: Value::Register(d), src_register } => with_type(
            table,
            d.0,
            value_type(table, src_register),
        ),
        _ => table,
    }
}

/// The types of the registers up to `count`, as the instructions before
/// (`b`, `i`) in program order give them.
pub open spec fn types_before(blocks: Seq<BlockView>, count: usize, b: int, i: int) -> Seq<
    Option<PrimitiveValue>,
>
    decreases b, i,
{
    if b < 0 || i < 0 || (b == 0 && i == 0) {
        Seq::new((count + 1) as nat, |j: int| None::<PrimitiveValue>)
    } else if i > 0 {
        types_after(types_before(blocks, count, b, i - 1), blocks[b].code[i - 1])
    } else {
        types_before(blocks, count, b - 1, blocks[b - 1].code.len() as int)
    }
}

/// The operands of an arithmetic instruction, if it is one.
pub open spec fn arithmetic_operands(inst: IR) -> Option<(Value, Value)> {
    match inst {
        IR::Add { src1, src2, .. } => Some((src1, src2)),
        IR::Subtract { src1, src2, .. } => Some((src1, src2)),
        IR::Multiply { src1, src2, .. } => Some((src1, src2)),
        IR::Divide { src1, src2, .. } => Some((src1, src2)),
        _ => None,
    }
}

/// What is wrong with the widths of an instruction under the types in `table`:
/// an arithmetic instruction whose operands have known types of different widths.
pub open spec fn width_fault(table: Seq<Option<PrimitiveValue>>, inst: IR) -> Option<
    CodeGenErrorReason,
> {
    match arithmetic_operands(inst) {
        Some((src1, src2)) => match (value_type(table, src1), value_type(table, src2)) {
            (Some(t1), Some(t2)) => if t1.bits() != t2.bits() {
                Some(CodeGenErrorReason::TypeMismatch(t1, t2))
            } else {
                None
            },
            _ => None,
        },
        None => None,
    }
}

/// The width fault of the instruction at (`b`, `i`), under the types that the
/// instructions before it give the registers.
pub open spec fn type_fault(blocks: Seq<BlockView>, count: usize) -> spec_fn(int, int) -> Option<
    CodeGenErrorReason,
> {
    |b: int, i: int| width_fault(types_before(blocks, count, b, i), blocks[b].code[i])
}

/// The type of an operand, as far as the table knows it.
pub fn type_of_value(table: &Vec<Option<PrimitiveValue>>, v: Value) -> (t: Option<PrimitiveValue>)
    ensures
        t == value_type(table@, v),
{
    match v {
        Value::Immediate { _type, .. } => Some(_type),
        Value::Register(r) => if r.0 < table.len() {
            table[r.0]
        } else {
            None
        },
    }
}

fn set_type(table: &mut Vec<Option<PrimitiveValue>>, r: usize, t: Option<PrimitiveValue>)
    ensures
        final(table)@ == with_type(old(table)@, r, t),
{
    if r < table.len() {
        table.set(r, t);
    }
}

/// Records the type of the register that the instruction defines.
pub fn record_type(table: &mut Vec<Option<PrimitiveValue>>, inst: &IR)
    ensures
        final(table)@ == types_after(old(table)@, *inst),
{
    match *inst {
        IR::Alloca { dest_register, _type, .. } => {
            set_type(table, dest_register.0, Some(_type));
        },
        IR::Add { dest_register, src1, .. } => {
            let t = type_of_value(table, src1);
            set_type(table, dest_register.0, t);
        },
        IR::Subtract { dest_register, src1, .. } => {
            let t = type_of_value(table, src1);
            set_type(table, dest_register.0, t);
        },
        IR::Multiply { dest_register, src1, .. } => {
            let t = type_of_value(table, src1);
            set_type(table, dest_register.0, t);
        },
        IR::Divide { dest_register, src1, .. } => {
            let t = type_of_value(table, src1);
            set_type(table, dest_register.0, t);
        },
        IR::Load { dest_register, src_register } => match dest_register {
            Value::Register(d) => {
                let t = type_of_value(table, src_register);
                set_type(table, d.0, t);
            },
            Value::Immediate { .. } => {},
        },
        _ => {},
    }
}

fn check_widths(table: &Vec<Option<PrimitiveValue>>, inst: &IR) -> (r: Option<CodeGenErrorReason>)
    ensures
        r == width_fault(table@, *inst),
{
    let pair = match *inst {
        IR::Add { src1, src2, .. } => Some((src1, src2)),
        IR::Subtract { src1, src2, .. } => Some((src1, src2)),
        IR::Multiply { src1, src2, .. } => Some((src1, src2)),
        IR::Divide { src1, src2, .. } => Some((src1, src2)),
        _ => None,
    };
    match pair {
        Some((src1, src2)) => match (type_of_value(table, src1), type_of_value(table, src2)) {
            (Some(t1), Some(t2)) => if t1.width() != t2.width() {
                Some(CodeGenErrorReason::TypeMismatch(t1, t2))
            } else {
                None
            },
            _ => None,
        },
        None => None,
    }
}

/// The first arithmetic instruction whose operands differ in width.
pub fn find_width_mismatch(bbm: &BasicBlockManager, count: usize) -> (r: Option<CodeGenError>)
    requires
        count < usize::MAX,
    ensures
        r == first_fault(bbm@.blocks, type_fault(bbm@.blocks, count), 0, 0),
{
    let ghost blocks = bbm@.blocks;
    let ghost fault = type_fault(blocks, count);
    let mut table: Vec<Option<PrimitiveValue>> = Vec::new();
    let mut j: usize = 0;
    while j <= count
        invariant
            j <= count + 1,
            count < usize::MAX,
            table@ == Seq::new(j as nat, |x: int| None::<PrimitiveValue>),
        decreases count + 1 - j,
    {
        table.push(None);
        j += 1;
        assert(table@ =~= Seq::new(j as nat, |x: int| None::<PrimitiveValue>));
    }
    let n = bbm.len();
    let mut b: usize = 0;
    while b < n
        invariant
            b <= n,
            n == blocks.len(),
            blocks == bbm@.blocks,
            fault == type_fault(blocks, count),
            table@ == types_before(blocks, count, b as int, 0),
            first_fault(blocks, fault, 0, 0) == first_fault(blocks, fault, b as int, 0),
        decreases n - b,
    {
        let code = bbm.get(BasicBlockIndex(b)).unwrap().instructions();
        let mut i: usize = 0;
        while i < code.len()
            invariant
                i <= code.len(),
                b < n,
                n == blocks.len(),
                code@ == blocks[b as int].code,
                blocks == bbm@.blocks,
                fault == type_fault(blocks, count),
                table@ == types_before(blocks, count, b as int, i as int),
                first_fault(blocks, fault, 0, 0) == first_fault(blocks, fault, b as int, i as int),
            decreases code.len() - i,
        {
            let found = check_widths(&table, &code[i]);
            assert(fault(b as int, i as int) == found);
            if let Some(reason) = found {
                return Some(CodeGenError { block: b, instruction: i, reason });
            }
            record_type(&mut table, &code[i]);
            i += 1;
        }
        b += 1;
    }
    None
}


/// Whether a definition of register `r` reaches its read at (`b`, `i`): an
/// earlier instruction of the block defines it, or the block can be reached
/// from the entry and a block that strictly dominates it defines the register.
pub open spec fn has_reaching_definition(
    blocks: Seq<BlockView>,
    start: int,
    b: int,
    i: int,
    r: usize,
) -> bool {
    ||| exists|j: int| 0 <= j < i && #[trigger] defines_at(blocks, b, j, r)
    ||| exists|d: int, j: int|
        d != b && #[trigger] defines_at(blocks, d, j, r) && reachable(cfg(blocks), start, b)
            && strictly_dominates(cfg(blocks), start, d, b)
}

/// The first of the registers `regs`, read at (`b`, `i`), that no definition reaches.
pub open spec fn first_unreached(
    regs: Seq<usize>,
    blocks: Seq<BlockView>,
    start: int,
    b: int,
    i: int,
) -> Option<usize>
    decreases regs.len(),
{
    if regs.len() == 0 {
        None
    } else if !has_reaching_definition(blocks, start, b, i, regs[0]) {
        Some(regs[0])
    } else {
        first_unreached(regs.drop_first(), blocks, start, b, i)
    }
}

/// A register that the instruction at (`b`, `i`) reads and no definition reaches.
pub open spec fn use_fault(blocks: Seq<BlockView>, start: int) -> spec_fn(int, int) -> Option<
    CodeGenErrorReason,
> {
    |b: int, i: int|
        match first_unreached(registers_read(blocks[b].code[i]), blocks, start, b, i) {
            Some(r) => Some(CodeGenErrorReason::RegisterNotFound(r)),
            None => None,
        }
}

/// Whether a definition reaches every read of a register.
pub open spec fn uses_dominated(blocks: Seq<BlockView>, start: int) -> bool {
    forall|b: int, i: int, r: usize| #[trigger]
        reads_at(blocks, b, i, r) ==> has_reaching_definition(blocks, start, b, i, r)
}

/// Whether a definition of register `r` reaches its read at (`b`, `i`).
#[verifier::loop_isolation(false)]
fn reaches(bbm: &BasicBlockManager, gq: &GraphQuery, count: usize, b: usize, i: usize, r: usize) -> (ok:
    bool)
    requires
        analyses(*gq, bbm@.blocks, bbm@.start as int),
        gq.describes(bbm@.blocks, count),
        b < bbm@.blocks.len(),
        i < bbm@.blocks[b as int].code.len(),
        r <= count,
    ensures
        ok == has_reaching_definition(bbm@.blocks, bbm@.start as int, b as int, i as int, r),
{
    let ghost blocks = bbm@.blocks;
    let ghost start = bbm@.start as int;
    let ghost n = blocks.len() as int;
    proof {
        lemma_same_edges(*gq, blocks, start);
        assert forall|b1: int, i1: int| #[trigger] defines_at(blocks, b1, i1, r) implies gq.define_map@[r as int]
            == Some(b1 as usize) by {
            assert(before(b1, i1, n, 0));
        }
    }
    match gq.define_map[r] {
        None => false,
        Some(d) => {
            proof {
                assert(defined_in_before(blocks, d as int, r, n, 0));
            }
            if d == b {
                let code = bbm.get(BasicBlockIndex(b)).unwrap().instructions();
                let mut j: usize = 0;
                while j < i
                    invariant
                        j <= i,
                        i < code@.len(),
                        code@ == blocks[b as int].code,
                        b < blocks.len(),
                        forall|x: int| 0 <= x < j ==> !(#[trigger] defines_at(blocks, b as int, x, r)),
                    decreases i - j,
                {
                    match code[j].defines() {
                        Some(v) => {
                            if v == r {
                                assert(defines_at(blocks, b as int, j as int, r));
                                return true;
                            }
                        },
                        None => {},
                    }
                    j += 1;
                }
                false
            } else {
                let ok = gq.strictly_dominated_by(d, b);
                proof {
                    let j = choose|j: int|
                        before(d as int, j, n, 0) && #[trigger] defines_at(blocks, d as int, j, r);
                    if ok {
                        assert(defines_at(blocks, d as int, j, r) && reachable(
                            cfg(blocks),
                            start,
                            b as int,
                        ) && strictly_dominates(cfg(blocks), start, d as int, b as int));
                    }
                }
                ok
            }
        },
    }
}

/// The first instruction that reads a register no definition reaches.
#[verifier::loop_isolation(false)]
pub fn find_undominated_use(bbm: &BasicBlockManager, gq: &GraphQuery, count: usize) -> (r: Option<
    CodeGenError,
>)
    requires
        analyses(*gq, bbm@.blocks, bbm@.start as int),
        gq.describes(bbm@.blocks, count),
    ensures
        r == first_fault(bbm@.blocks, use_fault(bbm@.blocks, bbm@.start as int), 0, 0),
{
    let ghost blocks = bbm@.blocks;
    let ghost start = bbm@.start as int;
    let ghost fault = use_fault(blocks, start);
    let n = bbm.len();
    let mut b: usize = 0;
    while b < n
        invariant
            b <= n,
            n == blocks.len(),
            blocks == bbm@.blocks,
            start == bbm@.start,
            fault == use_fault(blocks, start),
            analyses(*gq, blocks, start),
            gq.describes(blocks, count),
            first_fault(blocks, fault, 0, 0) == first_fault(blocks, fault, b as int, 0),
        decreases n - b,
    {
        let code = bbm.get(BasicBlockIndex(b)).unwrap().instructions();
        let mut i: usize = 0;
        while i < code.len()
            invariant
                i <= code.len(),
                b < n,
                n == blocks.len(),
                blocks == bbm@.blocks,
                start == bbm@.start,
                code@ == blocks[b as int].code,
                fault == use_fault(blocks, start),
                analyses(*gq, blocks, start),
                gq.describes(blocks, count),
                    first_fault(blocks, fault, 0, 0) == first_fault(blocks, fault, b as int, i as int),
            decreases code.len() - i,
        {
            let reads = code[i].reads();
            let mut k: usize = 0;
            assert(reads@.subrange(0, reads@.len() as int) =~= reads@);
            while k < reads.len()
                invariant
                    k <= reads.len(),
                    i < code.len(),
                    b < n,
                    n == blocks.len(),
                    blocks == bbm@.blocks,
                    start == bbm@.start,
                    code@ == blocks[b as int].code,
                    reads@ == registers_read(blocks[b as int].code[i as int]),
                    analyses(*gq, blocks, start),
                    gq.describes(blocks, count),
                            first_unreached(reads@, blocks, start, b as int, i as int) == first_unreached(
                        reads@.subrange(k as int, reads@.len() as int),
                        blocks,
                        start,
                        b as int,
                        i as int,
                    ),
                decreases reads.len() - k,
            {
                let reg = reads[k];
                assert(reads@.subrange(k as int, reads@.len() as int).drop_first()
                    =~= reads@.subrange(k + 1, reads@.len() as int));
                proof {
                    assert(reads_at(blocks, b as int, i as int, reg));
                    assert(before(b as int, i as int, n as int, 0));
                }
                if !reaches(bbm, gq, count, b, i, reg) {
                    assert(fault(b as int, i as int) == Some(
                        CodeGenErrorReason::RegisterNotFound(reg),
                    ));
                    return Some(
                        CodeGenError {
                            block: b,
                            instruction: i,
                            reason: CodeGenErrorReason::RegisterNotFound(reg),
                        },
                    );
                }
                k += 1;
            }
            assert(fault(b as int, i as int) is None);
            i += 1;
        }
        b += 1;
    }
    None
}


/// An error that belongs to the program as a whole.
pub open spec fn program_error(reason: CodeGenErrorReason) -> CodeGenError {
    CodeGenError { block: 0, instruction: 0, reason }
}

/// The first thing wrong with a program whose edges are in range, if anything.
/// In order: the entry block does not exist; an instruction follows a terminator;
/// the register counter is exhausted; a register is above the counter or defined
/// twice; a block that is the target of an edge cannot be reached from the
/// entry; a register is read where no
/// definition reaches; the operands of an arithmetic instruction differ in width.
pub open spec fn first_violation(blocks: Seq<BlockView>, start: usize, count: usize) -> Option<
    CodeGenError,
> {
    if start >= blocks.len() {
        Some(program_error(CodeGenErrorReason::InvalidEdge(start)))
    } else if first_fault(blocks, terminator_fault(blocks), 0, 0) is Some {
        first_fault(blocks, terminator_fault(blocks), 0, 0)
    } else if count == usize::MAX {
        Some(program_error(CodeGenErrorReason::OutOfRegisters))
    } else if first_register_fault(blocks, count, 0, 0) is Some {
        first_register_fault(blocks, count, 0, 0)
    } else if first_unreachable(blocks, start as int, 0) is Some {
        first_unreachable(blocks, start as int, 0)
    } else if first_fault(blocks, use_fault(blocks, start as int), 0, 0) is Some {
        first_fault(blocks, use_fault(blocks, start as int), 0, 0)
    } else {
        first_fault(blocks, type_fault(blocks, count), 0, 0)
    }
}

/// Every register is read only where a definition reaches exactly when no read
/// is reported.
pub proof fn lemma_first_unreached(regs: Seq<usize>, blocks: Seq<BlockView>, start: int, b: int, i: int)
    ensures
        first_unreached(regs, blocks, start, b, i) is None <==> forall|k: int|
            0 <= k < regs.len() ==> has_reaching_definition(blocks, start, b, i, #[trigger] regs[k]),
    decreases regs.len(),
{
    if regs.len() > 0 {
        lemma_first_unreached(regs.drop_first(), blocks, start, b, i);
        if has_reaching_definition(blocks, start, b, i, regs[0]) {
            assert forall|k: int| 0 <= k < regs.len() && first_unreached(regs, blocks, start, b, i)
                is None implies has_reaching_definition(blocks, start, b, i, #[trigger] regs[k]) by {
                if k > 0 {
                    assert(regs.drop_first()[k - 1] == regs[k]);
                }
            }
            if forall|k: int|
                0 <= k < regs.len() ==> has_reaching_definition(blocks, start, b, i, #[trigger] regs[k]) {
                assert forall|k: int| 0 <= k < regs.drop_first().len() implies has_reaching_definition(
                    blocks,
                    start,
                    b,
                    i,
                    #[trigger] regs.drop_first()[k],
                ) by {
                    assert(regs.drop_first()[k] == regs[k + 1]);
                }
            }
        }
    }
}

/// Whether a program is fit for code generation: its edges name blocks that
/// exist, nothing follows a terminator, every register has one definition, every
/// block that is the target of an edge can be reached from the entry, and a
/// definition reaches every read.
pub open spec fn well_formed(blocks: Seq<BlockView>, start: usize) -> bool {
    &&& start < blocks.len()
    &&& edges_in_range(blocks)
    &&& terminators_last(blocks)
    &&& single_definition(blocks)
    &&& targets_reachable(blocks, start as int)
    &&& uses_dominated(blocks, start as int)
}

/// A program with edges in range and no violation is fit for code generation.
pub proof fn lemma_no_violation(blocks: Seq<BlockView>, start: usize, count: usize, gq: GraphQuery)
    requires
        edges_in_range(blocks),
        first_violation(blocks, start, count) is None,
        gq.describes(blocks, count),
    ensures
        well_formed(blocks, start),
{
    lemma_first_fault(blocks, terminator_fault(blocks), 0, 0);
    assert forall|b: int, i: int|
        #![trigger blocks[b].code[i]]
        0 <= b < blocks.len() && 0 <= i < blocks[b].code.len() - 1 implies !is_terminator(
        blocks[b].code[i],
    ) by {
        assert(terminator_fault(blocks)(b, i + 1) is None);
    }
    lemma_first_unreachable(blocks, start as int, 0);
    lemma_first_fault(blocks, use_fault(blocks, start as int), 0, 0);
    assert forall|b: int, i: int, r: usize| #[trigger] reads_at(blocks, b, i, r) implies has_reaching_definition(
        blocks,
        start as int,
        b,
        i,
        r,
    ) by {
        assert(use_fault(blocks, start as int)(b, i) is None);
        let regs = registers_read(blocks[b].code[i]);
        lemma_first_unreached(regs, blocks, start as int, b, i);
        let k = choose|k: int| 0 <= k < regs.len() && regs[k] == r;
        assert(has_reaching_definition(blocks, start as int, b, i, regs[k]));
    }
}

/// Checks a program whose edges are in range, and reports the first violation.
pub fn validate(bbm: &BasicBlockManager) -> (r: Option<CodeGenError>)
    requires
        edges_in_range(bbm@.blocks),
    ensures
        r == first_violation(bbm@.blocks, bbm@.start, bbm@.register_count()),
        r is None ==> well_formed(bbm@.blocks, bbm@.start),
{
    let start = bbm.start().0;
    if start >= bbm.len() {
        return Some(
            CodeGenError { block: 0, instruction: 0, reason: CodeGenErrorReason::InvalidEdge(start) },
        );
    }
    if let Some(e) = find_misplaced_terminator(bbm) {
        return Some(e);
    }
    let count = bbm.register_count();
    if count == usize::MAX {
        return Some(
            CodeGenError { block: 0, instruction: 0, reason: CodeGenErrorReason::OutOfRegisters },
        );
    }
    let gd = compute_graph(bbm);
    let gq = match GraphQuery::new(gd, bbm) {
        Err(e) => {
            return Some(e);
        },
        Ok(gq) => gq,
    };
    if let Some(e) = find_unreachable(bbm, &gq) {
        return Some(e);
    }
    proof {
        lemma_first_unreachable(bbm@.blocks, bbm@.start as int, 0);
    }
    if let Some(e) = find_undominated_use(bbm, &gq, count) {
        return Some(e);
    }
    let r = find_width_mismatch(bbm, count);
    proof {
        if r is None {
            lemma_no_violation(bbm@.blocks, bbm@.start, count, gq);
        }
    }
    r
}


/// In a program fit for code generation, the block that defines a register
/// strictly dominates every other block that reads it.
pub proof fn lemma_definition_dominates_uses(
    blocks: Seq<BlockView>,
    start: usize,
    d: int,
    j: int,
    b: int,
    i: int,
    r: usize,
)
    requires
        well_formed(blocks, start),
        defines_at(blocks, d, j, r),
        reads_at(blocks, b, i, r),
        d != b,
    ensures
        strictly_dominates(cfg(blocks), start as int, d, b),
{
    let n = blocks.len() as int;
    assert(has_reaching_definition(blocks, start as int, b, i, r));
    assert(before(d, j, n, 0));
    if exists|j2: int| 0 <= j2 < i && #[trigger] defines_at(blocks, b, j2, r) {
        let j2 = choose|j2: int| 0 <= j2 < i && #[trigger] defines_at(blocks, b, j2, r);
        assert(before(b, j2, n, 0));
        assert(defines_at(blocks, d, j, r) && defines_at(blocks, b, j2, r));
    } else {
        let (d2, j2) = choose|d2: int, j2: int|
            d2 != b && #[trigger] defines_at(blocks, d2, j2, r) && strictly_dominates(
                cfg(blocks),
                start as int,
                d2,
                b,
            );
        assert(before(d2, j2, n, 0));
        assert(defines_at(blocks, d, j, r) && defines_at(blocks, d2, j2, r));
    }
}

/// In a program fit for code generation, a register that is read is defined by
/// exactly one instruction.
pub proof fn lemma_one_definition(blocks: Seq<BlockView>, start: usize, b: int, i: int, r: usize)
    requires
        well_formed(blocks, start),
        reads_at(blocks, b, i, r),
    ensures
        exists|d: int, j: int|
            #![trigger defines_at(blocks, d, j, r)]
            defines_at(blocks, d, j, r) && forall|d2: int, j2: int| #[trigger]
                defines_at(blocks, d2, j2, r) ==> d2 == d && j2 == j,
{
    let n = blocks.len() as int;
    assert(has_reaching_definition(blocks, start as int, b, i, r));
    let (d, j) = if exists|j2: int| 0 <= j2 < i && #[trigger] defines_at(blocks, b, j2, r) {
        (b, choose|j2: int| 0 <= j2 < i && #[trigger] defines_at(blocks, b, j2, r))
    } else {
        choose|d2: int, j2: int|
            d2 != b && #[trigger] defines_at(blocks, d2, j2, r) && strictly_dominates(
                cfg(blocks),
                start as int,
                d2,
                b,
            )
    };
    assert(defines_at(blocks, d, j, r));
    assert forall|d2: int, j2: int| #[trigger] defines_at(blocks, d2, j2, r) implies d2 == d && j2
        == j by {
        assert(before(d, j, n, 0) && before(d2, j2, n, 0));
        assert(defines_at(blocks, d, j, r) && defines_at(blocks, d2, j2, r));
    }
}


/// Two depth maps of one graph from one root are the same map: each labels a
/// node with its distance from the root.
pub proof fn lemma_depths_agree(g1: GraphData, g2: GraphData, v: int)
    requires
        g1.wf(),
        g2.wf(),
        g1.root == g2.root,
        g1.node_count() == g2.node_count(),
        edge_set(g1.edges()) == edge_set(g2.edges()),
        0 <= v < g1.node_count(),
    ensures
        g1.depth_map@[v] == g2.depth_map@[v],
{
    let root = g1.root as int;
    let (d1, d2) = (g1.depth_map@, g2.depth_map@);
    if d1[v] is Some {
        let w = lemma_depth_has_walk(d1, g1.edges(), root, v);
        lemma_walk_depth(d2, g2.edges(), root, w, w.len() - 1);
    }
    if d2[v] is Some {
        let w = lemma_depth_has_walk(d2, g2.edges(), root, v);
        lemma_walk_depth(d1, g1.edges(), root, w, w.len() - 1);
    }
}

/// Two analyses of one program answer every liveness query alike, and know the
/// same registers.
pub proof fn lemma_analyses_agree(
    gq1: GraphQuery,
    gq2: GraphQuery,
    blocks: Seq<BlockView>,
    start: int,
    count: usize,
)
    requires
        analyses(gq1, blocks, start),
        analyses(gq2, blocks, start),
        gq1.describes(blocks, count),
        gq2.describes(blocks, count),
    ensures
        gq1.define_map@.len() == gq2.define_map@.len(),
        forall|r: int, q: int| #[trigger] gq1.live_in(r, q) == gq2.live_in(r, q),
        forall|r: int, q: int| #[trigger] gq1.live_out(r, q) == gq2.live_out(r, q),
{
    let (g1, g2) = (gq1.graph_data, gq2.graph_data);
    let n = blocks.len() as int;
    lemma_same_edges(gq1, blocks, start);
    lemma_same_edges(gq2, blocks, start);
    assert(g1.depth_map@ =~= g2.depth_map@) by {
        assert forall|v: int| 0 <= v < n implies g1.depth_map@[v] == g2.depth_map@[v] by {
            lemma_depths_agree(g1, g2, v);
        }
    }
    assert(edge_set(g1.reduced_edges()) =~= edge_set(g2.reduced_edges())) by {
        assert forall|u: int, v: int| has_edge(g1.reduced_edges(), u, v) == has_edge(
            g2.reduced_edges(),
            u,
            v,
        ) by {
            assert(has_edge(g1.edges(), u, v) == cfg_edge(blocks, u, v));
            assert(has_edge(g2.edges(), u, v) == cfg_edge(blocks, u, v));
        }
    }
    assert forall|a: int, t: int| g1.back_edge_target(a, t) == g2.back_edge_target(a, t) by {
        if g1.back_edge_target(a, t) {
            let s = choose|s: int|
                g1.reduced_reachable(a, s) && #[trigger] has_edge(g1.edges(), s, t) && is_back_edge(
                    g1.depth_map@,
                    s,
                    t,
                );
            assert(has_edge(g2.edges(), s, t) == cfg_edge(blocks, s, t));
            assert(g2.reduced_reachable(a, s) && has_edge(g2.edges(), s, t));
        }
        if g2.back_edge_target(a, t) {
            let s = choose|s: int|
                g2.reduced_reachable(a, s) && #[trigger] has_edge(g2.edges(), s, t) && is_back_edge(
                    g2.depth_map@,
                    s,
                    t,
                );
            assert(has_edge(g1.edges(), s, t) == cfg_edge(blocks, s, t));
            assert(g1.reduced_reachable(a, s) && has_edge(g1.edges(), s, t));
        }
    }
    assert forall|d: int, x: int| gq1.sdom(d, x) == gq2.sdom(d, x) by {
        assert(dominance(gq1.dominators).dom().contains(x) == dominance(
            gq2.dominators,
        ).dom().contains(x));
        if dominance(gq1.dominators).dom().contains(x) {
            assert(dominance(gq1.dominators)[x].contains(d) == strictly_dominates(
                cfg(blocks),
                start,
                d,
                x,
            ));
            assert(dominance(gq2.dominators)[x].contains(d) == strictly_dominates(
                cfg(blocks),
                start,
                d,
                x,
            ));
        }
    }
    assert(blocks.len() == gq1.graph_data.depth_map.len());
    assert forall|r: int, u: int| gq1.used_in(r, u) == gq2.used_in(r, u) by {
        lemma_used_in(gq1, blocks, count, r, u);
        lemma_used_in(gq2, blocks, count, r, u);
    }
    assert forall|r: int| gq1.def_of(r) == gq2.def_of(r) by {
        if 0 <= r <= count {
            if gq1.define_map@[r] is Some {
                let x = gq1.define_map@[r]->0 as int;
                assert(defined_in_before(blocks, x, r as usize, n, 0));
                let i = choose|i: int| before(x, i, n, 0) && #[trigger] defines_at(blocks, x, i, r as usize);
                assert(gq2.define_map@[r as usize as int] == Some(x as usize));
            }
            if gq2.define_map@[r] is Some {
                let x = gq2.define_map@[r]->0 as int;
                assert(defined_in_before(blocks, x, r as usize, n, 0));
                let i = choose|i: int| before(x, i, n, 0) && #[trigger] defines_at(blocks, x, i, r as usize);
                assert(gq1.define_map@[r as usize as int] == Some(x as usize));
            }
        }
    }
    assert forall|t: int, r: int, skip: Option<int>| gq1.reaches_use(t, r, skip) == gq2.reaches_use(
        t,
        r,
        skip,
    ) by {
        if gq1.reaches_use(t, r, skip) {
            let u = choose|u: int|
                #[trigger] gq1.used_in(r, u) && Some(u) != skip && g1.reduced_reachable(t, u);
            assert(gq2.used_in(r, u) && g2.reduced_reachable(t, u));
        }
        if gq2.reaches_use(t, r, skip) {
            let u = choose|u: int|
                #[trigger] gq2.used_in(r, u) && Some(u) != skip && g2.reduced_reachable(t, u);
            assert(gq1.used_in(r, u) && g1.reduced_reachable(t, u));
        }
    }
    assert forall|d: int, t: int| gq1.loop_header_of(d, t) == gq2.loop_header_of(d, t) by {}
    assert forall|t: int, q: int| gq1.skipped(t, q) == gq2.skipped(t, q) by {}
    assert forall|r: int, q: int| #[trigger] gq1.live_out(r, q) == gq2.live_out(r, q) by {
        assert(gq1.def_of(r) == gq2.def_of(r));
        if gq1.def_of(r) is Some {
            let d = gq1.def_of(r)->0 as int;
            if d == q {
                if exists|u: int| #[trigger] gq1.used_in(r, u) && u != q {
                    let u = choose|u: int| #[trigger] gq1.used_in(r, u) && u != q;
                    assert(gq2.used_in(r, u));
                }
                if exists|u: int| #[trigger] gq2.used_in(r, u) && u != q {
                    let u = choose|u: int| #[trigger] gq2.used_in(r, u) && u != q;
                    assert(gq1.used_in(r, u));
                }
            } else {
                assert(gq1.sdom(d, q) == gq2.sdom(d, q));
                if exists|t: int|
                    #[trigger] gq1.loop_header_of(d, t) && gq1.reaches_use(t, r, gq1.skipped(t, q)) {
                    let t = choose|t: int|
                        #[trigger] gq1.loop_header_of(d, t) && gq1.reaches_use(t, r, gq1.skipped(t, q));
                    assert(gq2.loop_header_of(d, t) && gq2.reaches_use(t, r, gq2.skipped(t, q)));
                }
                if exists|t: int|
                    #[trigger] gq2.loop_header_of(d, t) && gq2.reaches_use(t, r, gq2.skipped(t, q)) {
                    let t = choose|t: int|
                        #[trigger] gq2.loop_header_of(d, t) && gq2.reaches_use(t, r, gq2.skipped(t, q));
                    assert(gq1.loop_header_of(d, t) && gq1.reaches_use(t, r, gq1.skipped(t, q)));
                }
            }
        }
    }
    assert forall|r: int, q: int| #[trigger] gq1.live_in(r, q) == gq2.live_in(r, q) by {
        assert(gq1.def_of(r) == gq2.def_of(r));
        assert(gq1.used_in(r, q) == gq2.used_in(r, q));
        if exists|p: int| #[trigger] has_edge(g1.edges(), p, q) && gq1.live_out(r, p) {
            let p = choose|p: int| #[trigger] has_edge(g1.edges(), p, q) && gq1.live_out(r, p);
            assert(has_edge(g2.edges(), p, q) == cfg_edge(blocks, p, q));
            assert(gq1.live_out(r, p) == gq2.live_out(r, p));
            assert(has_edge(g2.edges(), p, q) && gq2.live_out(r, p));
        }
        if exists|p: int| #[trigger] has_edge(g2.edges(), p, q) && gq2.live_out(r, p) {
            let p = choose|p: int| #[trigger] has_edge(g2.edges(), p, q) && gq2.live_out(r, p);
            assert(has_edge(g1.edges(), p, q) == cfg_edge(blocks, p, q));
            assert(gq1.live_out(r, p) == gq2.live_out(r, p));
            assert(has_edge(g1.edges(), p, q) && gq1.live_out(r, p));
        }
    }
}

/// A block is among the recorded uses of a register exactly when one of its
/// instructions reads the register.
pub proof fn lemma_used_in(gq: GraphQuery, blocks: Seq<BlockView>, count: usize, r: int, u: int)
    requires
        gq.describes(blocks, count),
        blocks.len() <= usize::MAX,
    ensures
        gq.used_in(r, u) <==> 0 <= r <= count && exists|i: int| #[trigger] reads_at(blocks, u, i, r as usize),
{
    let n = blocks.len() as int;
    if gq.used_in(r, u) {
        let k = choose|k: int| 0 <= k < gq.use_map@[r]@.len() && gq.use_map@[r]@[k] == u as usize;
        assert(read_in_before(blocks, gq.use_map@[r]@[k] as int, r as usize, n, 0));
        let i = choose|i: int| before(u, i, n, 0) && #[trigger] reads_at(blocks, u, i, r as usize);
    }
    if 0 <= r <= count && exists|i: int| #[trigger] reads_at(blocks, u, i, r as usize) {
        let i = choose|i: int| #[trigger] reads_at(blocks, u, i, r as usize);
        assert(before(u, i, n, 0));
        assert(gq.use_map@[r as usize as int]@.contains(u as usize));
    }
}

} // verus!
