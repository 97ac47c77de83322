use shiba_jit::codegen::x86_64::{analyze, CodeGenErrorReason};
use shiba_jit::ir::{BasicBlockIndex, Context, PrimitiveValue, RegisterIndex, Value, IR};
use shiba_jit::reg_alloc::{
    build_cfg, compute_graph, compute_reduced_graph_and_depth_map, scan_registers, vec_contains,
    GraphQuery,
};

fn node(i: usize) -> petgraph::graph::NodeIndex<usize> {
    petgraph::graph::NodeIndex::new(i)
}

/// entry -> a -> b -> a (loop), b -> exit
fn looping() -> (Context, Vec<Value>) {
    let mut ctx = Context::new();
    let entry = ctx.new_basic_block();
    let a = ctx.new_basic_block();
    let b = ctx.new_basic_block();
    let exit = ctx.new_basic_block();
    let bb = ctx.build_basic_block(entry);
    let p = bb.alloca(PrimitiveValue::U32, 4);
    bb.jump(a);
    let bb = ctx.build_basic_block(a);
    let x = bb.load(p);
    bb.jump(b);
    let bb = ctx.build_basic_block(b);
    let y = bb.add(x, Value::u32(1));
    bb.store(p, y);
    bb.jump_if_equal(y, exit, a);
    ctx.build_basic_block(exit).ret();
    assert_eq!(ctx.finalize(), Ok(()));
    (ctx, vec![p, x, y])
}

#[test]
fn the_graph_has_one_edge_per_successor() {
    let (ctx, _) = looping();
    let g = build_cfg(ctx.blocks());
    assert_eq!(g.node_count(), 4);
    assert_eq!(g.edge_count(), 4);
    assert!(g.contains_edge(node(0), node(1)));
    assert!(g.contains_edge(node(1), node(2)));
    assert!(g.contains_edge(node(2), node(1)));
    assert!(g.contains_edge(node(2), node(3)));
    assert!(!g.contains_edge(node(1), node(0)));
    assert_eq!(g[node(2)], 2);
}

#[test]
fn the_depth_is_the_distance_from_the_entry() {
    let (ctx, _) = looping();
    let gd = compute_graph(ctx.blocks());
    assert_eq!(gd.root, 0);
    assert_eq!(gd.depth_map, vec![Some(0), Some(1), Some(2), Some(3)]);
    assert!(gd.leads_back(2, 1));
    assert!(!gd.leads_back(1, 2));
    assert!(!gd.leads_back(1, 1));
}

#[test]
fn the_reduced_graph_lacks_the_back_edges() {
    let (ctx, _) = looping();
    let g = build_cfg(ctx.blocks());
    let (reduced, depth) = compute_reduced_graph_and_depth_map(&g, 0);
    assert_eq!(depth, vec![Some(0), Some(1), Some(2), Some(3)]);
    assert_eq!(reduced.edge_count(), 3);
    assert!(!reduced.contains_edge(node(2), node(1)));
    assert!(reduced.contains_edge(node(1), node(2)));
    // the graph itself is untouched
    assert_eq!(g.edge_count(), 4);
}

#[test]
fn nodes_out_of_reach_have_no_depth() {
    let mut ctx = Context::new();
    let a = ctx.new_basic_block();
    let b = ctx.new_basic_block();
    let c = ctx.new_basic_block();
    ctx.build_basic_block(a).ret();
    ctx.build_basic_block(b).jump(c);
    ctx.build_basic_block(c).jump(b);
    let _ = ctx.new_basic_block();
    let gd = compute_graph(ctx.blocks());
    assert_eq!(gd.depth_map, vec![Some(0), None, None, None]);
    // edges between nodes out of reach stay
    assert!(gd.reduced_graph.contains_edge(node(1), node(2)));
    assert!(gd.reduced_graph.contains_edge(node(2), node(1)));
}

#[test]
fn an_edge_within_one_depth_stays() {
    // entry -> a, entry -> b, a -> b, b -> a: a and b are both one deep
    let mut ctx = Context::new();
    let entry = ctx.new_basic_block();
    let a = ctx.new_basic_block();
    let b = ctx.new_basic_block();
    let v = ctx.build_basic_block(entry).add(Value::u32(0), Value::u32(0));
    ctx.build_basic_block(entry).jump_if_equal(v, a, b);
    ctx.build_basic_block(a).jump(b);
    ctx.build_basic_block(b).jump(a);
    assert_eq!(ctx.finalize(), Ok(()));
    let gd = compute_graph(ctx.blocks());
    assert_eq!(gd.depth_map, vec![Some(0), Some(1), Some(1)]);
    assert!(gd.reduced_graph.contains_edge(node(1), node(2)));
    assert!(gd.reduced_graph.contains_edge(node(2), node(1)));
}

#[test]
fn reachability_and_back_edge_targets() {
    let (ctx, _) = looping();
    let gd = compute_graph(ctx.blocks());
    assert_eq!(gd.reduced_reach_from(1), vec![false, true, true, true]);
    assert_eq!(gd.reduced_reach_from(3), vec![false, false, false, true]);
    let (reach, back) = gd.compute_reduced_reachability_and_back_edges();
    assert_eq!(reach.len(), 4);
    assert_eq!(reach[0], vec![true, true, true, true]);
    assert_eq!(reach[2], vec![false, false, true, true]);
    assert_eq!(back, vec![vec![1], vec![1], vec![1], vec![]]);
    assert_eq!(gd.back_edge_targets_from(3, &reach[3]), Vec::<usize>::new());
}

#[test]
fn the_register_scan_records_reads_and_definitions() {
    let (ctx, _) = looping();
    let (uses, defs) = scan_registers(ctx.blocks(), 3).unwrap();
    assert_eq!(defs, vec![None, Some(0), Some(1), Some(2)]);
    assert_eq!(uses, vec![vec![], vec![1, 2], vec![2], vec![2]]);
    // a register above the count
    let e = scan_registers(ctx.blocks(), 2).unwrap_err();
    assert_eq!(e.reason(), CodeGenErrorReason::RegisterNotFound(3));
    assert_eq!(e.location(), (2, 0));
    assert!(vec_contains(&uses[1], 2));
    assert!(!vec_contains(&uses[1], 0));
}

#[test]
fn dominators_of_the_loop() {
    let (ctx, _) = looping();
    let gq = analyze(ctx.blocks()).unwrap();
    assert!(gq.strictly_dominated_by(0, 1));
    assert!(gq.strictly_dominated_by(0, 3));
    assert!(gq.strictly_dominated_by(1, 2));
    assert!(gq.strictly_dominated_by(2, 3));
    assert!(!gq.strictly_dominated_by(1, 1));
    assert!(!gq.strictly_dominated_by(2, 1));
    assert!(!gq.strictly_dominated_by(3, 0));
    assert!(!gq.strictly_dominated_by(0, 17));
}

#[test]
fn liveness_in_the_loop() {
    let (ctx, regs) = looping();
    let gq = analyze(ctx.blocks()).unwrap();
    let reg = |v: Value| match v {
        Value::Register(r) => r,
        _ => unreachable!(),
    };
    let (p, x, y) = (reg(regs[0]), reg(regs[1]), reg(regs[2]));
    let b = |i: usize| BasicBlockIndex(i);
    // in the defining block a register is live on exit when another block reads it
    assert!(gq.is_live_out(p, b(0)));
    assert!(gq.is_live_out(x, b(1)));
    assert!(!gq.is_live_out(y, b(2)));
    // not live on entry to the defining block, out of no predecessor of which
    // it is live
    assert!(!gq.is_live_in(p, b(0)));
    assert!(!gq.is_live_in(x, b(1)));
    // live on entry where the block reads it and does not define it
    assert!(gq.is_live_in(p, b(1)));
    assert!(gq.is_live_in(p, b(2)));
    assert!(gq.is_live_in(x, b(2)));
    assert!(!gq.is_live_in(p, b(3)));
    // y is read in its own block only: it is not live out of block 2, the one
    // predecessor of block 3
    assert!(!gq.is_live_in(y, b(3)));
    // x is defined in the loop head's body: the loop head 1 is a back-edge
    // target of 2 but does not strictly dominate the defining block 1
    assert!(!gq.is_live_out(x, b(2)));
    assert!(!gq.is_live_out(p, b(1)));
    // unknown registers and blocks are not live
    assert!(!gq.is_live_in(RegisterIndex(40), b(1)));
    assert!(!gq.is_live_out(RegisterIndex(40), b(1)));
    assert!(!gq.is_live_out(p, b(40)));
    assert!(!gq.is_live_in(p, b(40)));
}

/// entry -> head -> body -> head, body -> exit; a register defined in `body`
/// is read in `head`, around the loop.
#[test]
fn a_loop_head_keeps_a_register_of_the_body_live() {
    let mut ctx = Context::new();
    let entry = ctx.new_basic_block();
    let head = ctx.new_basic_block();
    let body = ctx.new_basic_block();
    let exit = ctx.new_basic_block();
    ctx.build_basic_block(entry).jump(head);
    ctx.build_basic_block(head).jump(body);
    let bb = ctx.build_basic_block(body);
    let v = bb.add(Value::u32(1), Value::u32(1));
    bb.jump_if_equal(v, head, exit);
    let bb = ctx.build_basic_block(exit);
    bb.add(v, Value::u32(1));
    bb.ret();
    // a read in the head, which the definition does not dominate
    ctx.build_basic_block(head).finish();
    assert_eq!(ctx.finalize(), Ok(()));
    let gq = analyze(ctx.blocks()).unwrap();
    let r = RegisterIndex(1);
    // the head is a back-edge target of the body and strictly dominates it,
    // and a use (the exit) is reached from the head without back-edges
    assert!(gq.is_live_out(r, exit));
    assert!(gq.is_live_in(r, exit));
    assert!(gq.is_live_out(r, body));
    // live out of the body, which is a predecessor of the head
    assert!(gq.is_live_in(r, head));
    assert!(!gq.is_live_out(r, head));
}

#[test]
fn liveness_with_a_self_loop_on_the_entry() {
    let mut ctx = Context::new();
    let a = ctx.new_basic_block();
    let b = ctx.new_basic_block();
    let bb = ctx.build_basic_block(a);
    let v = bb.add(Value::u32(1), Value::u32(1));
    let w = bb.add(v, Value::u32(1));
    bb.jump_if_equal(w, a, b);
    let bb = ctx.build_basic_block(b);
    bb.add(w, Value::u32(1));
    bb.ret();
    assert_eq!(ctx.finalize(), Ok(()));
    let gd = compute_graph(ctx.blocks());
    // the self-edge joins two nodes of one depth, so it is no back-edge
    assert_eq!(gd.depth_map, vec![Some(0), Some(1)]);
    assert!(gd.reduced_graph.contains_edge(node(0), node(0)));
    let gq = GraphQuery::new(gd, ctx.blocks()).unwrap();
    // v is read in its own block only, w in the other block too
    assert!(!gq.is_live_out(RegisterIndex(1), a));
    assert!(gq.is_live_out(RegisterIndex(2), a));
    // the block is its own predecessor
    assert!(gq.is_live_in(RegisterIndex(2), a));
    assert!(!gq.is_live_in(RegisterIndex(1), a));
    assert!(gq.is_live_in(RegisterIndex(2), b));
    assert!(!gq.is_live_out(RegisterIndex(2), b));
}

#[test]
fn analyze_reports_what_keeps_it_from_running() {
    let mut ctx = Context::new();
    assert_eq!(analyze(ctx.blocks()).unwrap_err().reason(), CodeGenErrorReason::InvalidEdge(0));
    let a = ctx.new_basic_block();
    ctx.build_basic_block(a).push_instruction(IR::Jump { bb_idx: BasicBlockIndex(2) });
    let e = analyze(ctx.blocks()).unwrap_err();
    assert_eq!(e.reason(), CodeGenErrorReason::InvalidEdge(2));
    assert_eq!(e.location(), (0, 0));
}

#[test]
fn live_on_entry_is_read_here_or_live_out_of_a_predecessor() {
    let (ctx, _) = looping();
    let gq = analyze(ctx.blocks()).unwrap();
    let mut live = 0;
    for r in 0..5 {
        for q in 0..4 {
            let read_here = r < gq.use_map.len()
                && gq.use_map[r].contains(&q)
                && gq.define_map[r] != Some(q);
            let from_before = (0..4).any(|p| {
                gq.graph_data.graph.contains_edge(node(p), node(q))
                    && gq.is_live_out(RegisterIndex(r), BasicBlockIndex(p))
            });
            let live_in = gq.is_live_in(RegisterIndex(r), BasicBlockIndex(q));
            assert_eq!(live_in, read_here || from_before);
            if live_in {
                // in this program the definition strictly dominates the block
                let d = gq.define_map[r].unwrap();
                assert!(gq.strictly_dominated_by(d, q));
                live += 1;
            }
        }
    }
    assert_eq!(live, 3);
}

#[test]
fn a_value_is_live_on_entry_to_the_block_behind_its_definition() {
    // a -> b -> c; r1 is defined in a and read in c only
    let mut ctx = Context::new();
    let a = ctx.new_basic_block();
    let b = ctx.new_basic_block();
    let c = ctx.new_basic_block();
    let r1 = ctx.build_basic_block(a).alloca(PrimitiveValue::U32, 4);
    ctx.build_basic_block(a).jump(b);
    ctx.build_basic_block(b).jump(c);
    let bb = ctx.build_basic_block(c);
    bb.store(r1, Value::u32(1));
    bb.ret();
    assert_eq!(ctx.finalize(), Ok(()));
    let gq = analyze(ctx.blocks()).unwrap();
    let r = RegisterIndex(1);
    assert!(gq.is_live_out(r, a));
    // live out of a, the predecessor of b
    assert!(gq.is_live_in(r, b));
    // no loop head lies around the definition: not live on exit from b
    assert!(!gq.is_live_out(r, b));
    // read in c
    assert!(gq.is_live_in(r, c));
    assert!(!gq.is_live_in(r, a));
}

#[test]
fn the_nodes_carry_the_index_of_their_block() {
    let (ctx, _) = looping();
    let gd = compute_graph(ctx.blocks());
    for i in 0..4 {
        assert_eq!(gd.graph[node(i)], i);
        assert_eq!(gd.reduced_graph[node(i)], i);
    }
}

#[test]
fn live_on_entry_through_a_predecessor_that_does_not_dominate() {
    // e -> p, e -> q, p -> q, p -> u; r is defined in p and read in u
    let mut ctx = Context::new();
    let e = ctx.new_basic_block();
    let p = ctx.new_basic_block();
    let q = ctx.new_basic_block();
    let u = ctx.new_basic_block();
    let c = ctx.build_basic_block(e).add(Value::u32(0), Value::u32(0));
    ctx.build_basic_block(e).jump_if_equal(c, p, q);
    let r = ctx.build_basic_block(p).add(Value::u32(1), Value::u32(1));
    ctx.build_basic_block(p).jump_if_equal(r, q, u);
    ctx.build_basic_block(q).ret();
    let bb = ctx.build_basic_block(u);
    bb.add(r, Value::u32(1));
    bb.ret();
    assert_eq!(ctx.finalize(), Ok(()));
    let gq = analyze(ctx.blocks()).unwrap();
    let r = RegisterIndex(2);
    assert!(gq.is_live_out(r, p));
    // live out of p, a predecessor of q, which p does not dominate
    assert!(gq.is_live_in(r, q));
    assert!(!gq.strictly_dominated_by(1, 2));
    assert!(gq.is_live_in(r, u));
    assert!(gq.strictly_dominated_by(1, 3));
}
