//! What holds of the register assignment: which blocks the walk visits, which
//! registers it assigns, that every machine register it gives is one of the
//! pool, and that it keeps apart the values that are live together.

use crate::codegen::x86_64::{
    allocate_definitions, extends, in_current, initial_pool, insert_sorted, kept_apart,
    lemma_allocate_apart, lemma_insert_sorted,
    lemma_allocate_extends, lemma_initial_pool_apart, lemma_release_apart,
    lemma_visit_exits_extends, lemma_visit_extends, live_at, release, visit, visit_exits,
    Assignment, CodeGenError, MachineRegister,
};
use crate::codegen::x86_64::{lemma_mark_seen, unseen_count};
use crate::graph::{is_path, joined, path_between, reachable};
use crate::ir::{defined_register, BlockView, IR};
use crate::reg_alloc::GraphQuery;
use vstd::prelude::*;

verus! {

/// Whether an instruction of the code, at `from` or behind, defines register `v`.
pub open spec fn defined_from(code: Seq<IR>, from: int, v: usize) -> bool {
    exists|i: int| from <= i < code.len() && #[trigger] defined_register(code[i]) == Some(v)
}

/// Whether an instruction of the code defines register `v`.
pub open spec fn defined_in(code: Seq<IR>, v: usize) -> bool {
    defined_from(code, 0, v)
}

/// Whether register `v` is live at block `b`: live on entry, defined in the
/// block, or live on exit.
pub open spec fn live_at_block(gq: GraphQuery, blocks: Seq<BlockView>, v: usize, b: int) -> bool {
    gq.live_in(v as int, b) || defined_in(blocks[b].code, v) || gq.live_out(v as int, b)
}

/// Whether the liveness answers agree along the exits of the blocks: what is
/// live on entry to an exit of a block is live on exit from the block; what is
/// live on exit from a block is defined in it or live on entry to it; and
/// nothing is live on entry to the entry block.
pub open spec fn liveness_flows(gq: GraphQuery, blocks: Seq<BlockView>, start: usize) -> bool {
    &&& flows_along_exits(gq, blocks)
    &&& forall|v: usize| !(#[trigger] gq.live_in(v as int, start as int))
}

/// The first two parts of [`liveness_flows`].
pub open spec fn flows_along_exits(gq: GraphQuery, blocks: Seq<BlockView>) -> bool {
    &&& forall|v: usize, p: int, k: int|
        0 <= p < blocks.len() && 0 <= k < blocks[p].exits.len() && #[trigger] gq.live_in(
            v as int,
            blocks[p].exits[k] as int,
        ) ==> gq.live_out(v as int, p)
    &&& forall|v: usize, p: int|
        0 <= p < blocks.len() && #[trigger] gq.live_out(v as int, p) ==> gq.live_in(v as int, p)
            || defined_in(blocks[p].code, v)
}

/// Whether the current map holds virtual register `v`.
pub open spec fn held(cur: Seq<(usize, MachineRegister)>, v: usize) -> bool {
    exists|i: int| 0 <= i < cur.len() && (#[trigger] cur[i]).0 == v
}

/// Whether every entry of the current map is the assignment of its register.
pub open spec fn agrees(cur: Seq<(usize, MachineRegister)>, map: Seq<Option<MachineRegister>>) -> bool {
    forall|i: int|
        0 <= i < cur.len() ==> (#[trigger] cur[i]).0 < map.len() && map[cur[i].0 as int] == Some(
            cur[i].1,
        )
}

/// Whether the current map holds every register that is live on entry to `q`.
pub open spec fn covers(gq: GraphQuery, cur: Seq<(usize, MachineRegister)>, q: int) -> bool {
    forall|v: usize| #[trigger] gq.live_in(v as int, q) ==> held(cur, v)
}

/// Whether the block is marked as visited.
pub open spec fn marked(seen: Seq<bool>, b: int) -> bool {
    0 <= b < seen.len() && seen[b]
}

/// Whether any two different registers that are live at block `b` have machine
/// registers, and different ones.
pub open spec fn separated(
    gq: GraphQuery,
    blocks: Seq<BlockView>,
    b: int,
    map: Seq<Option<MachineRegister>>,
) -> bool {
    forall|v1: usize, v2: usize|
        #![trigger live_at_block(gq, blocks, v1, b), live_at_block(gq, blocks, v2, b)]
        v1 != v2 && live_at_block(gq, blocks, v1, b) && live_at_block(gq, blocks, v2, b) ==> v1
            < map.len() && v2 < map.len() && map[v1 as int] is Some && map[v2 as int] is Some
            && map[v1 as int] != map[v2 as int]
}

/// The walk of the register assignment of a program: the assignment and the
/// blocks it visited.
pub open spec fn allocation_walk(blocks: Seq<BlockView>, start: usize, gq: GraphQuery, nregs: nat) -> Result<
    (Seq<Option<MachineRegister>>, Seq<bool>),
    CodeGenError,
> {
    visit(
        blocks.len(),
        blocks,
        gq,
        start,
        Seq::new(nregs, |i: int| None::<MachineRegister>),
        Seq::new(blocks.len(), |i: int| false),
        Seq::empty(),
        initial_pool(),
    )
}

/// An entry is in a list exactly when it is the first or in the rest.
proof fn lemma_first_or_rest(s: Seq<(usize, MachineRegister)>, x: (usize, MachineRegister))
    requires
        s.len() > 0,
    ensures
        s.contains(x) <==> s[0] == x || s.drop_first().contains(x),
{
    let t = s.drop_first();
    if s.contains(x) {
        let i = choose|i: int| 0 <= i < s.len() && s[i] == x;
        if i > 0 {
            assert(t[i - 1] == x);
        }
    }
    if t.contains(x) {
        let i = choose|i: int| 0 <= i < t.len() && t[i] == x;
        assert(s[i + 1] == x);
    }
}

/// After a release the current map holds exactly its entries that are live.
pub proof fn lemma_release_entries(
    gq: GraphQuery,
    cur: Seq<(usize, MachineRegister)>,
    pool: Seq<MachineRegister>,
    q: int,
    at_exit: bool,
)
    ensures
        forall|x: (usize, MachineRegister)| #[trigger]
            release(gq, cur, pool, q, at_exit).0.contains(x) <==> cur.contains(x) && live_at(
                gq,
                x.0 as int,
                q,
                at_exit,
            ),
    decreases cur.len(),
{
    let out = release(gq, cur, pool, q, at_exit).0;
    if cur.len() > 0 {
        let c = cur[0];
        let tail = cur.drop_first();
        if live_at(gq, c.0 as int, q, at_exit) {
            lemma_release_entries(gq, tail, pool, q, at_exit);
            let rest = release(gq, tail, pool, q, at_exit).0;
            assert(out == seq![c] + rest);
            assert(out.drop_first() =~= rest);
            assert forall|x: (usize, MachineRegister)| #[trigger]
                out.contains(x) <==> cur.contains(x) && live_at(gq, x.0 as int, q, at_exit) by {
                lemma_first_or_rest(out, x);
                lemma_first_or_rest(cur, x);
                assert(rest.contains(x) <==> tail.contains(x) && live_at(gq, x.0 as int, q, at_exit));
            }
        } else {
            lemma_release_entries(gq, tail, pool.push(c.1), q, at_exit);
            let rest = release(gq, tail, pool.push(c.1), q, at_exit).0;
            assert(out == rest);
            assert forall|x: (usize, MachineRegister)| #[trigger]
                out.contains(x) <==> cur.contains(x) && live_at(gq, x.0 as int, q, at_exit) by {
                lemma_first_or_rest(cur, x);
                assert(rest.contains(x) <==> tail.contains(x) && live_at(gq, x.0 as int, q, at_exit));
            }
        }
    } else {
        assert forall|x: (usize, MachineRegister)| #[trigger]
            out.contains(x) <==> cur.contains(x) && live_at(gq, x.0 as int, q, at_exit) by {}
    }
}

/// After an insertion the current map holds its entries and the new one.
pub proof fn lemma_insert_entries(cur: Seq<(usize, MachineRegister)>, v: usize, m: MachineRegister)
    ensures
        forall|x: (usize, MachineRegister)| #[trigger]
            insert_sorted(cur, v, m).contains(x) <==> cur.contains(x) || x == (v, m),
    decreases cur.len(),
{
    let out = insert_sorted(cur, v, m);
    if cur.len() == 0 {
        assert(out =~= seq![(v, m)]);
        assert forall|x: (usize, MachineRegister)| #[trigger]
            out.contains(x) <==> cur.contains(x) || x == (v, m) by {
            lemma_first_or_rest(out, x);
            assert(out.drop_first() =~= Seq::<(usize, MachineRegister)>::empty());
        }
    } else if cur[0].0 > v {
        assert(out =~= seq![(v, m)] + cur);
        assert(out.drop_first() =~= cur);
        assert forall|x: (usize, MachineRegister)| #[trigger]
            out.contains(x) <==> cur.contains(x) || x == (v, m) by {
            lemma_first_or_rest(out, x);
        }
    } else {
        let tail = cur.drop_first();
        lemma_insert_entries(tail, v, m);
        let rest = insert_sorted(tail, v, m);
        assert(out =~= seq![cur[0]] + rest);
        assert(out.drop_first() =~= rest);
        assert forall|x: (usize, MachineRegister)| #[trigger]
            out.contains(x) <==> cur.contains(x) || x == (v, m) by {
            lemma_first_or_rest(out, x);
            lemma_first_or_rest(cur, x);
            assert(rest.contains(x) <==> tail.contains(x) || x == (v, m));
        }
    }
}

/// A register is held exactly when some entry of the current map is its own.
proof fn lemma_held(cur: Seq<(usize, MachineRegister)>, v: usize)
    ensures
        held(cur, v) <==> exists|m: MachineRegister| #[trigger] cur.contains((v, m)),
{
    if held(cur, v) {
        let i = choose|i: int| 0 <= i < cur.len() && (#[trigger] cur[i]).0 == v;
        assert(cur.contains((v, cur[i].1)));
    }
    if exists|m: MachineRegister| #[trigger] cur.contains((v, m)) {
        let m = choose|m: MachineRegister| #[trigger] cur.contains((v, m));
        let i = choose|i: int| 0 <= i < cur.len() && cur[i] == (v, m);
        assert(cur[i].0 == v);
    }
}

/// After the definitions of a block the current map still agrees with the
/// assignment, holds what it held, and holds every register the block defines.
pub proof fn lemma_allocate_entries(code: Seq<IR>, from: int, a: Assignment)
    requires
        0 <= from,
        agrees(a.current, a.map),
    ensures
        allocate_definitions(code, from, a) matches Ok(done) ==> agrees(done.current, done.map)
            && (forall|v: usize| held(a.current, v) ==> #[trigger] held(done.current, v)) && (
        forall|v: usize| #[trigger] defined_from(code, from, v) ==> held(done.current, v)),
    decreases code.len() - from,
{
    if from < code.len() {
        match defined_register(code[from]) {
            None => {
                lemma_allocate_entries(code, from + 1, a);
                if allocate_definitions(code, from, a) is Ok {
                    let done = allocate_definitions(code, from, a)->Ok_0;
                    assert forall|w: usize| #[trigger] defined_from(code, from, w) implies held(
                        done.current,
                        w,
                    ) by {
                        let i = choose|i: int|
                            from <= i < code.len() && #[trigger] defined_register(code[i]) == Some(w);
                        assert(i != from);
                        assert(defined_from(code, from + 1, w));
                    }
                }
            },
            Some(v) => {
                if a.pool.len() > 0 && v < a.map.len() && a.map[v as int] is None {
                    let m = a.pool[0];
                    let next = Assignment {
                        current: insert_sorted(a.current, v, m),
                        pool: a.pool.drop_first(),
                        map: a.map.update(v as int, Some(m)),
                    };
                    lemma_insert_entries(a.current, v, m);
                    assert(agrees(next.current, next.map)) by {
                        assert forall|i: int| 0 <= i < next.current.len() implies (
                        #[trigger] next.current[i]).0 < next.map.len() && next.map[next.current[i].0 as int]
                            == Some(next.current[i].1) by {
                            let x = next.current[i];
                            assert(next.current.contains(x));
                            if x != (v, m) {
                                assert(a.current.contains(x));
                                let j = choose|j: int| 0 <= j < a.current.len() && a.current[j] == x;
                                assert(a.map[a.current[j].0 as int] == Some(a.current[j].1));
                            }
                        }
                    }
                    lemma_allocate_entries(code, from + 1, next);
                    if allocate_definitions(code, from, a) is Ok {
                        let done = allocate_definitions(code, from, a)->Ok_0;
                        assert(held(next.current, v)) by {
                            assert(next.current.contains((v, m)));
                            lemma_held(next.current, v);
                        }
                        assert forall|w: usize| held(a.current, w) implies #[trigger] held(
                            done.current,
                            w,
                        ) by {
                            lemma_held(a.current, w);
                            let mw = choose|mw: MachineRegister| #[trigger] a.current.contains((w, mw));
                            assert(next.current.contains((w, mw)));
                            lemma_held(next.current, w);
                        }
                        assert forall|w: usize| #[trigger] defined_from(code, from, w) implies held(
                            done.current,
                            w,
                        ) by {
                            let i = choose|i: int|
                                from <= i < code.len() && #[trigger] defined_register(code[i]) == Some(w);
                            if i == from {
                                assert(w == v);
                            } else {
                                assert(defined_from(code, from + 1, w));
                            }
                        }
                    }
                }
            },
        }
    }
}

/// Registers that are separated stay so when the assignment grows.
pub proof fn lemma_separated_extends(
    gq: GraphQuery,
    blocks: Seq<BlockView>,
    b: int,
    before: Seq<Option<MachineRegister>>,
    after: Seq<Option<MachineRegister>>,
)
    requires
        separated(gq, blocks, b, before),
        extends(before, after),
    ensures
        separated(gq, blocks, b, after),
{
    assert forall|v1: usize, v2: usize|
        #![trigger live_at_block(gq, blocks, v1, b), live_at_block(gq, blocks, v2, b)]
        v1 != v2 && live_at_block(gq, blocks, v1, b) && live_at_block(gq, blocks, v2, b) implies v1
        < after.len() && v2 < after.len() && after[v1 as int] is Some && after[v2 as int] is Some
        && after[v1 as int] != after[v2 as int] by {
        assert(before[v1 as int] is Some && before[v2 as int] is Some);
    }
}

/// An assignment that a current map agrees with is agreed with when it grows.
proof fn lemma_agrees_extends(
    cur: Seq<(usize, MachineRegister)>,
    before: Seq<Option<MachineRegister>>,
    after: Seq<Option<MachineRegister>>,
)
    requires
        agrees(cur, before),
        extends(before, after),
    ensures
        agrees(cur, after),
{
    assert forall|i: int| 0 <= i < cur.len() implies (#[trigger] cur[i]).0 < after.len() && after[cur[i].0 as int]
        == Some(cur[i].1) by {
        assert(before[cur[i].0 as int] is Some);
    }
}

/// What a release keeps: apartness, agreement, and every live register it held.
proof fn lemma_release_keeps(
    gq: GraphQuery,
    cur: Seq<(usize, MachineRegister)>,
    pool: Seq<MachineRegister>,
    map: Seq<Option<MachineRegister>>,
    q: int,
    at_exit: bool,
)
    requires
        kept_apart(cur, pool),
        agrees(cur, map),
    ensures
        kept_apart(release(gq, cur, pool, q, at_exit).0, release(gq, cur, pool, q, at_exit).1),
        agrees(release(gq, cur, pool, q, at_exit).0, map),
        forall|v: usize|
            held(cur, v) && live_at(gq, v as int, q, at_exit) ==> #[trigger] held(
                release(gq, cur, pool, q, at_exit).0,
                v,
            ),
{
    let out = release(gq, cur, pool, q, at_exit).0;
    lemma_release_apart(gq, cur, pool, q, at_exit);
    lemma_release_entries(gq, cur, pool, q, at_exit);
    assert forall|i: int| 0 <= i < out.len() implies (#[trigger] out[i]).0 < map.len() && map[out[i].0 as int]
        == Some(out[i].1) by {
        assert(out.contains(out[i]));
        assert(cur.contains(out[i]));
        let j = choose|j: int| 0 <= j < cur.len() && cur[j] == out[i];
        assert(map[cur[j].0 as int] == Some(cur[j].1));
    }
    assert forall|v: usize| held(cur, v) && live_at(gq, v as int, q, at_exit) implies #[trigger] held(
        out,
        v,
    ) by {
        lemma_held(cur, v);
        let m = choose|m: MachineRegister| #[trigger] cur.contains((v, m));
        assert(out.contains((v, m)));
        lemma_held(out, v);
    }
}

/// Two different registers that a current map holds have different machine
/// registers in the assignment, where the map holds none twice and agrees with
/// the assignment.
proof fn lemma_held_apart(
    cur: Seq<(usize, MachineRegister)>,
    pool: Seq<MachineRegister>,
    map: Seq<Option<MachineRegister>>,
    v1: usize,
    v2: usize,
)
    requires
        kept_apart(cur, pool),
        agrees(cur, map),
        held(cur, v1),
        held(cur, v2),
        v1 != v2,
    ensures
        v1 < map.len(),
        v2 < map.len(),
        map[v1 as int] is Some,
        map[v2 as int] is Some,
        map[v1 as int] != map[v2 as int],
{
    let i = choose|i: int| 0 <= i < cur.len() && (#[trigger] cur[i]).0 == v1;
    let j = choose|j: int| 0 <= j < cur.len() && (#[trigger] cur[j]).0 == v2;
    if i < j {
        assert(cur[i].1 != cur[j].1);
    } else {
        assert(cur[j].1 != cur[i].1);
    }
}


/// Whether the walk result separates the registers at every block that it
/// marked and that was not marked before.
pub open spec fn separates_new(
    gq: GraphQuery,
    blocks: Seq<BlockView>,
    seen: Seq<bool>,
    out: (Seq<Option<MachineRegister>>, Seq<bool>),
) -> bool {
    forall|b: int| #[trigger] marked(out.1, b) && !marked(seen, b) ==> separated(gq, blocks, b, out.0)
}

/// Where the liveness answers agree along the exits, the walk from a block whose
/// live registers the current map holds separates the registers at every block
/// it visits: any two different registers that are live there have different
/// machine registers in the assignment.
pub proof fn lemma_visit_separates(
    fuel: nat,
    blocks: Seq<BlockView>,
    gq: GraphQuery,
    q: usize,
    map: Seq<Option<MachineRegister>>,
    seen: Seq<bool>,
    current: Seq<(usize, MachineRegister)>,
    pool: Seq<MachineRegister>,
)
    requires
        flows_along_exits(gq, blocks),
        kept_apart(current, pool),
        agrees(current, map),
        covers(gq, current, q as int),
    ensures
        visit(fuel, blocks, gq, q, map, seen, current, pool) matches Ok(out) ==> separates_new(
            gq,
            blocks,
            seen,
            out,
        ),
    decreases fuel, 0nat,
{
    if fuel == 0 || q >= blocks.len() || q >= seen.len() || seen[q as int] {
    } else {
        let qi = q as int;
        let code = blocks[qi].code;
        let exits = blocks[qi].exits;
        lemma_release_keeps(gq, current, pool, map, qi, false);
        let entered = release(gq, current, pool, qi, false);
        let start = Assignment { current: entered.0, pool: entered.1, map };
        lemma_allocate_apart(code, 0, start);
        lemma_allocate_entries(code, 0, start);
        lemma_allocate_extends(code, 0, start);
        match allocate_definitions(code, 0, start) {
            Err(_) => {},
            Ok(a) => {
                // every register that is live at the block is held after its definitions
                assert forall|v: usize| live_at_block(gq, blocks, v, qi) implies held(a.current, v) by {
                    if gq.live_in(v as int, qi) {
                        assert(held(current, v));
                        assert(held(entered.0, v));
                        assert(held(a.current, v));
                    } else if defined_in(code, v) {
                        assert(defined_from(code, 0, v));
                    } else {
                        assert(gq.live_out(v as int, qi));
                    }
                }
                assert(separated(gq, blocks, qi, a.map)) by {
                    assert forall|v1: usize, v2: usize|
                        #![trigger live_at_block(gq, blocks, v1, qi), live_at_block(gq, blocks, v2, qi)]
                        v1 != v2 && live_at_block(gq, blocks, v1, qi) && live_at_block(
                            gq,
                            blocks,
                            v2,
                            qi,
                        ) implies v1 < a.map.len() && v2 < a.map.len() && a.map[v1 as int] is Some
                        && a.map[v2 as int] is Some && a.map[v1 as int] != a.map[v2 as int] by {
                        lemma_held_apart(a.current, a.pool, a.map, v1, v2);
                    }
                }
                lemma_release_keeps(gq, a.current, a.pool, a.map, qi, true);
                let left = release(gq, a.current, a.pool, qi, true);
                assert forall|j: int| 0 <= j < exits.len() implies covers(
                    gq,
                    left.0,
                    #[trigger] exits[j] as int,
                ) by {
                    assert forall|v: usize| #[trigger] gq.live_in(v as int, exits[j] as int) implies held(
                        left.0,
                        v,
                    ) by {
                        assert(gq.live_out(v as int, qi));
                        assert(live_at_block(gq, blocks, v, qi));
                        assert(held(a.current, v));
                    }
                }
                let marks = seen.update(qi, true);
                lemma_exits_separate(
                    (fuel - 1) as nat,
                    blocks,
                    gq,
                    exits,
                    0,
                    a.map,
                    marks,
                    left.0,
                    left.1,
                );
                lemma_visit_exits_extends(
                    (fuel - 1) as nat,
                    blocks,
                    gq,
                    exits,
                    0,
                    a.map,
                    marks,
                    left.0,
                    left.1,
                );
                match visit_exits((fuel - 1) as nat, blocks, gq, exits, 0, a.map, marks, left.0, left.1) {
                    Err(_) => {},
                    Ok(out) => {
                        assert(visit(fuel, blocks, gq, q, map, seen, current, pool) == Ok::<
                            (Seq<Option<MachineRegister>>, Seq<bool>),
                            CodeGenError,
                        >(out));
                        lemma_separated_extends(gq, blocks, qi, a.map, out.0);
                        assert forall|b: int| #[trigger] marked(out.1, b) && !marked(seen, b) implies separated(
                            gq,
                            blocks,
                            b,
                            out.0,
                        ) by {
                            if b != qi {
                                assert(!marked(marks, b));
                            }
                        }
                    },
                }
            },
        }
    }
}

/// The walk into the exits of a block separates the registers at every block it
/// visits, where the current map holds what is live on entry to each exit.
pub proof fn lemma_exits_separate(
    fuel: nat,
    blocks: Seq<BlockView>,
    gq: GraphQuery,
    exits: Seq<usize>,
    k: int,
    map: Seq<Option<MachineRegister>>,
    seen: Seq<bool>,
    current: Seq<(usize, MachineRegister)>,
    pool: Seq<MachineRegister>,
)
    requires
        flows_along_exits(gq, blocks),
        kept_apart(current, pool),
        agrees(current, map),
        forall|j: int| 0 <= j < exits.len() ==> covers(gq, current, #[trigger] exits[j] as int),
    ensures
        visit_exits(fuel, blocks, gq, exits, k, map, seen, current, pool) matches Ok(out)
            ==> separates_new(gq, blocks, seen, out),
    decreases fuel, 1 + exits.len() - k,
{
    if k < 0 || k >= exits.len() {
    } else {
        assert(covers(gq, current, exits[k] as int));
        lemma_visit_separates(fuel, blocks, gq, exits[k], map, seen, current, pool);
        lemma_visit_extends(fuel, blocks, gq, exits[k], map, seen, current, pool);
        match visit(fuel, blocks, gq, exits[k], map, seen, current, pool) {
            Err(_) => {},
            Ok(step) => {
                lemma_agrees_extends(current, map, step.0);
                lemma_exits_separate(fuel, blocks, gq, exits, k + 1, step.0, step.1, current, pool);
                lemma_visit_exits_extends(
                    fuel,
                    blocks,
                    gq,
                    exits,
                    k + 1,
                    step.0,
                    step.1,
                    current,
                    pool,
                );
                match visit_exits(fuel, blocks, gq, exits, k + 1, step.0, step.1, current, pool) {
                    Err(_) => {},
                    Ok(out) => {
                        assert forall|b: int| #[trigger] marked(out.1, b) && !marked(seen, b) implies separated(
                            gq,
                            blocks,
                            b,
                            out.0,
                        ) by {
                            if marked(step.1, b) {
                                assert(separated(gq, blocks, b, step.0));
                                lemma_separated_extends(gq, blocks, b, step.0, out.0);
                            }
                        }
                    },
                }
            },
        }
    }
}

/// The register assignment gives no machine register to two registers that are
/// live together, where the liveness answers agree along the exits: at every
/// block that the walk visits, any two different registers that are live there
/// (on entry, by definition in the block, or on exit) have different machine
/// registers.
pub proof fn lemma_allocation_separates(
    blocks: Seq<BlockView>,
    start: usize,
    gq: GraphQuery,
    nregs: nat,
    b: int,
    v1: usize,
    v2: usize,
)
    requires
        liveness_flows(gq, blocks, start),
        allocation_walk(blocks, start, gq, nregs) is Ok,
        marked(allocation_walk(blocks, start, gq, nregs)->Ok_0.1, b),
        live_at_block(gq, blocks, v1, b),
        live_at_block(gq, blocks, v2, b),
        v1 != v2,
    ensures
        crate::codegen::x86_64::allocation(blocks, start, gq, nregs) matches Ok(map) && v1
            < map.len() && v2 < map.len() && map[v1 as int] is Some && map[v2 as int] is Some
            && map[v1 as int] != map[v2 as int],
{
    lemma_initial_pool_apart();
    let map0 = Seq::new(nregs, |i: int| None::<MachineRegister>);
    let seen0 = Seq::new(blocks.len(), |i: int| false);
    let cur0 = Seq::<(usize, MachineRegister)>::empty();
    lemma_visit_separates(blocks.len(), blocks, gq, start, map0, seen0, cur0, initial_pool());
    let out = allocation_walk(blocks, start, gq, nregs)->Ok_0;
    assert(marked(out.1, b) && !marked(seen0, b));
    assert(separated(gq, blocks, b, out.0));
}


/// Whether every machine register that the assignment gives is one of the
/// registers that the pool starts with.
pub open spec fn assigns_from_pool(map: Seq<Option<MachineRegister>>) -> bool {
    forall|v: int|
        0 <= v < map.len() && (#[trigger] map[v]) is Some ==> initial_pool().contains(map[v]->0)
}

/// The definitions of a block take their machine registers from the pool.
pub proof fn lemma_allocate_from_pool(code: Seq<IR>, from: int, a: Assignment)
    requires
        0 <= from,
        pooled(a.current, a.pool),
        assigns_from_pool(a.map),
    ensures
        allocate_definitions(code, from, a) matches Ok(done) ==> pooled(done.current, done.pool)
            && assigns_from_pool(done.map),
    decreases code.len() - from,
{
    if from < code.len() {
        match defined_register(code[from]) {
            None => {
                lemma_allocate_from_pool(code, from + 1, a);
            },
            Some(v) => {
                if a.pool.len() > 0 && v < a.map.len() && a.map[v as int] is None {
                    let m = a.pool[0];
                    let rest = a.pool.drop_first();
                    let next = Assignment {
                        current: insert_sorted(a.current, v, m),
                        pool: rest,
                        map: a.map.update(v as int, Some(m)),
                    };
                    lemma_insert_sorted(a.current, v, m);
                    assert(initial_pool().contains(a.pool[0]));
                    assert forall|j: int| 0 <= j < rest.len() implies initial_pool().contains(
                        #[trigger] rest[j],
                    ) by {
                        assert(rest[j] == a.pool[j + 1]);
                    }
                    assert forall|x: MachineRegister| in_current(next.current, x) implies initial_pool().contains(
                        x,
                    ) by {
                        assert(in_current(a.current, x) || x == m);
                    }
                    lemma_allocate_from_pool(code, from + 1, next);
                }
            },
        }
    }
}

/// Whether every machine register of the current map and of the free pool is
/// one of the registers that the pool starts with.
pub open spec fn pooled(cur: Seq<(usize, MachineRegister)>, pool: Seq<MachineRegister>) -> bool {
    &&& forall|j: int| 0 <= j < pool.len() ==> initial_pool().contains(#[trigger] pool[j])
    &&& forall|m: MachineRegister| #[trigger] in_current(cur, m) ==> initial_pool().contains(m)
}

/// A release keeps the machine registers among those of the pool.
proof fn lemma_release_pooled(
    gq: GraphQuery,
    cur: Seq<(usize, MachineRegister)>,
    pool: Seq<MachineRegister>,
    q: int,
    at_exit: bool,
)
    requires
        kept_apart(cur, pool),
        pooled(cur, pool),
    ensures
        pooled(release(gq, cur, pool, q, at_exit).0, release(gq, cur, pool, q, at_exit).1),
{
    let out = release(gq, cur, pool, q, at_exit);
    lemma_release_apart(gq, cur, pool, q, at_exit);
    assert forall|j: int| 0 <= j < out.1.len() implies initial_pool().contains(#[trigger] out.1[j]) by {
        let m = out.1[j];
        assert(out.1.contains(m));
        assert(in_current(out.0, m) || out.1.contains(m));
        assert(in_current(cur, m) || pool.contains(m));
        if pool.contains(m) {
            let i = choose|i: int| 0 <= i < pool.len() && pool[i] == m;
            assert(initial_pool().contains(pool[i]));
        }
    }
    assert forall|m: MachineRegister| #[trigger] in_current(out.0, m) implies initial_pool().contains(
        m,
    ) by {
        assert(in_current(out.0, m) || out.1.contains(m));
        assert(in_current(cur, m) || pool.contains(m));
        if pool.contains(m) {
            let i = choose|i: int| 0 <= i < pool.len() && pool[i] == m;
            assert(initial_pool().contains(pool[i]));
        }
    }
}

/// The walk assigns machine registers of the pool only.
pub proof fn lemma_visit_from_pool(
    fuel: nat,
    blocks: Seq<BlockView>,
    gq: GraphQuery,
    q: usize,
    map: Seq<Option<MachineRegister>>,
    seen: Seq<bool>,
    current: Seq<(usize, MachineRegister)>,
    pool: Seq<MachineRegister>,
)
    requires
        kept_apart(current, pool),
        pooled(current, pool),
        assigns_from_pool(map),
    ensures
        visit(fuel, blocks, gq, q, map, seen, current, pool) matches Ok(out) ==> assigns_from_pool(
            out.0,
        ),
    decreases fuel, 0nat,
{
    if fuel == 0 || q >= blocks.len() || q >= seen.len() || seen[q as int] {
    } else {
        let qi = q as int;
        lemma_release_apart(gq, current, pool, qi, false);
        lemma_release_pooled(gq, current, pool, qi, false);
        let entered = release(gq, current, pool, qi, false);
        let start = Assignment { current: entered.0, pool: entered.1, map };
        lemma_allocate_apart(blocks[qi].code, 0, start);
        lemma_allocate_from_pool(blocks[qi].code, 0, start);
        match allocate_definitions(blocks[qi].code, 0, start) {
            Err(_) => {},
            Ok(a) => {
                lemma_release_apart(gq, a.current, a.pool, qi, true);
                lemma_release_pooled(gq, a.current, a.pool, qi, true);
                let left = release(gq, a.current, a.pool, qi, true);
                lemma_exits_from_pool(
                    (fuel - 1) as nat,
                    blocks,
                    gq,
                    blocks[qi].exits,
                    0,
                    a.map,
                    seen.update(qi, true),
                    left.0,
                    left.1,
                );
            },
        }
    }
}

/// The walk into the exits of a block assigns machine registers of the pool only.
pub proof fn lemma_exits_from_pool(
    fuel: nat,
    blocks: Seq<BlockView>,
    gq: GraphQuery,
    exits: Seq<usize>,
    k: int,
    map: Seq<Option<MachineRegister>>,
    seen: Seq<bool>,
    current: Seq<(usize, MachineRegister)>,
    pool: Seq<MachineRegister>,
)
    requires
        kept_apart(current, pool),
        pooled(current, pool),
        assigns_from_pool(map),
    ensures
        visit_exits(fuel, blocks, gq, exits, k, map, seen, current, pool) matches Ok(out)
            ==> assigns_from_pool(out.0),
    decreases fuel, 1 + exits.len() - k,
{
    if k < 0 || k >= exits.len() {
    } else {
        lemma_visit_from_pool(fuel, blocks, gq, exits[k], map, seen, current, pool);
        match visit(fuel, blocks, gq, exits[k], map, seen, current, pool) {
            Err(_) => {},
            Ok(step) => {
                lemma_exits_from_pool(fuel, blocks, gq, exits, k + 1, step.0, step.1, current, pool);
            },
        }
    }
}

/// Every machine register that the register assignment gives is one of the ten
/// of the pool: `rdx`, `rbx` and `r8` to `r15`. The frame registers and the
/// registers that a print clobbers are never assigned.
pub proof fn lemma_allocation_from_pool(
    blocks: Seq<BlockView>,
    start: usize,
    gq: GraphQuery,
    nregs: nat,
    v: int,
)
    requires
        crate::codegen::x86_64::allocation(blocks, start, gq, nregs) is Ok,
        0 <= v < crate::codegen::x86_64::allocation(blocks, start, gq, nregs)->Ok_0.len(),
        crate::codegen::x86_64::allocation(blocks, start, gq, nregs)->Ok_0[v] is Some,
    ensures
        initial_pool().contains(
            crate::codegen::x86_64::allocation(blocks, start, gq, nregs)->Ok_0[v]->0,
        ),
        crate::codegen::x86_64::allocation(blocks, start, gq, nregs)->Ok_0[v]->0.allocatable(),
        initial_pool().len() == 10,
{
    lemma_initial_pool_apart();
    let map0 = Seq::new(nregs, |i: int| None::<MachineRegister>);
    let seen0 = Seq::new(blocks.len(), |i: int| false);
    let cur0 = Seq::<(usize, MachineRegister)>::empty();
    assert(pooled(cur0, initial_pool())) by {
        assert forall|j: int| 0 <= j < initial_pool().len() implies initial_pool().contains(
            #[trigger] initial_pool()[j],
        ) by {}
    }
    lemma_visit_from_pool(blocks.len(), blocks, gq, start, map0, seen0, cur0, initial_pool());
    let m = crate::codegen::x86_64::allocation(blocks, start, gq, nregs)->Ok_0[v]->0;
    assert(initial_pool().contains(m));
    let j = choose|j: int| 0 <= j < initial_pool().len() && initial_pool()[j] == m;
    assert(initial_pool()[j].allocatable());
}


/// Whether `after` has the marks of `before`, and maybe more.
pub open spec fn marks_extend(before: Seq<bool>, after: Seq<bool>) -> bool {
    &&& after.len() == before.len()
    &&& forall|b: int| #[trigger] marked(before, b) ==> marked(after, b)
}

/// The walk only adds marks.
pub proof fn lemma_visit_marks(
    fuel: nat,
    blocks: Seq<BlockView>,
    gq: GraphQuery,
    q: usize,
    map: Seq<Option<MachineRegister>>,
    seen: Seq<bool>,
    current: Seq<(usize, MachineRegister)>,
    pool: Seq<MachineRegister>,
)
    ensures
        visit(fuel, blocks, gq, q, map, seen, current, pool) matches Ok(out) ==> marks_extend(
            seen,
            out.1,
        ) && (fuel > 0 && q < blocks.len() && q < seen.len() ==> marked(out.1, q as int)),
    decreases fuel, 0nat,
{
    if fuel == 0 || q >= blocks.len() || q >= seen.len() || seen[q as int] {
    } else {
        let qi = q as int;
        let entered = release(gq, current, pool, qi, false);
        match allocate_definitions(
            blocks[qi].code,
            0,
            Assignment { current: entered.0, pool: entered.1, map },
        ) {
            Err(_) => {},
            Ok(a) => {
                let left = release(gq, a.current, a.pool, qi, true);
                let marks = seen.update(qi, true);
                lemma_exits_marks((fuel - 1) as nat, blocks, gq, blocks[qi].exits, 0, a.map, marks, left.0, left.1);
                match visit_exits((fuel - 1) as nat, blocks, gq, blocks[qi].exits, 0, a.map, marks, left.0, left.1) {
                    Err(_) => {},
                    Ok(out) => {
                        assert(marked(marks, qi));
                        assert forall|b: int| #[trigger] marked(seen, b) implies marked(out.1, b) by {
                            assert(marked(marks, b));
                        }
                    },
                }
            },
        }
    }
}

/// The walk into the exits only adds marks.
pub proof fn lemma_exits_marks(
    fuel: nat,
    blocks: Seq<BlockView>,
    gq: GraphQuery,
    exits: Seq<usize>,
    k: int,
    map: Seq<Option<MachineRegister>>,
    seen: Seq<bool>,
    current: Seq<(usize, MachineRegister)>,
    pool: Seq<MachineRegister>,
)
    ensures
        visit_exits(fuel, blocks, gq, exits, k, map, seen, current, pool) matches Ok(out)
            ==> marks_extend(seen, out.1),
    decreases fuel, 1 + exits.len() - k,
{
    if k < 0 || k >= exits.len() {
    } else {
        lemma_visit_marks(fuel, blocks, gq, exits[k], map, seen, current, pool);
        match visit(fuel, blocks, gq, exits[k], map, seen, current, pool) {
            Err(_) => {},
            Ok(step) => {
                lemma_exits_marks(fuel, blocks, gq, exits, k + 1, step.0, step.1, current, pool);
                match visit_exits(fuel, blocks, gq, exits, k + 1, step.0, step.1, current, pool) {
                    Err(_) => {},
                    Ok(out) => {
                        assert forall|b: int| #[trigger] marked(seen, b) implies marked(out.1, b) by {
                            assert(marked(step.1, b));
                        }
                    },
                }
            },
        }
    }
}

/// Whether register `v` has a machine register in the assignment.
pub open spec fn assigned(map: Seq<Option<MachineRegister>>, v: usize) -> bool {
    v < map.len() && map[v as int] is Some
}

/// Whether block `b` was marked by a walk that started from the marks `seen`
/// and defines register `v`.
pub open spec fn defined_at_new(blocks: Seq<BlockView>, seen: Seq<bool>, marks: Seq<bool>, b: int, v: usize) -> bool {
    marked(marks, b) && !marked(seen, b) && b < blocks.len() && defined_in(blocks[b].code, v)
}

/// Whether the walk assigned exactly the registers that the blocks it marked define.
pub open spec fn assigns_new(
    blocks: Seq<BlockView>,
    map: Seq<Option<MachineRegister>>,
    seen: Seq<bool>,
    out: (Seq<Option<MachineRegister>>, Seq<bool>),
) -> bool {
    &&& forall|v: usize|
        #[trigger] assigned(out.0, v) && !assigned(map, v) ==> exists|b: int| #[trigger]
            defined_at_new(blocks, seen, out.1, b, v)
    &&& forall|b: int, v: usize| #[trigger]
        defined_at_new(blocks, seen, out.1, b, v) ==> assigned(out.0, v)
}

/// The definitions of a block assign exactly the registers the block defines.
pub proof fn lemma_allocate_keys(code: Seq<IR>, from: int, a: Assignment)
    requires
        0 <= from,
    ensures
        allocate_definitions(code, from, a) matches Ok(done) ==> (forall|v: usize|
            #[trigger] assigned(done.map, v) && !assigned(a.map, v) ==> defined_from(code, from, v))
            && (forall|v: usize| #[trigger] defined_from(code, from, v) ==> assigned(done.map, v)),
    decreases code.len() - from,
{
    if from < code.len() {
        match defined_register(code[from]) {
            None => {
                lemma_allocate_keys(code, from + 1, a);
                if allocate_definitions(code, from, a) is Ok {
                    let done = allocate_definitions(code, from, a)->Ok_0;
                    assert forall|v: usize| #[trigger] assigned(done.map, v) && !assigned(a.map, v) implies defined_from(
                        code,
                        from,
                        v,
                    ) by {
                        assert(defined_from(code, from + 1, v));
                        let i = choose|i: int| from + 1 <= i < code.len() && #[trigger] defined_register(code[i]) == Some(v);
                        assert(from <= i);
                    }
                    assert forall|v: usize| #[trigger] defined_from(code, from, v) implies assigned(
                        done.map,
                        v,
                    ) by {
                        let i = choose|i: int| from <= i < code.len() && #[trigger] defined_register(code[i]) == Some(v);
                        assert(i != from);
                        assert(defined_from(code, from + 1, v));
                    }
                }
            },
            Some(w) => {
                if a.pool.len() > 0 && w < a.map.len() && a.map[w as int] is None {
                    let next = Assignment {
                        current: insert_sorted(a.current, w, a.pool[0]),
                        pool: a.pool.drop_first(),
                        map: a.map.update(w as int, Some(a.pool[0])),
                    };
                    lemma_allocate_keys(code, from + 1, next);
                    lemma_allocate_extends(code, from + 1, next);
                    if allocate_definitions(code, from, a) is Ok {
                        let done = allocate_definitions(code, from, a)->Ok_0;
                        assert forall|v: usize| #[trigger] assigned(done.map, v) && !assigned(a.map, v) implies defined_from(
                            code,
                            from,
                            v,
                        ) by {
                            if v == w {
                                assert(defined_register(code[from]) == Some(v));
                            } else {
                                assert(!assigned(next.map, v));
                                assert(defined_from(code, from + 1, v));
                                let i = choose|i: int| from + 1 <= i < code.len() && #[trigger] defined_register(code[i]) == Some(v);
                                assert(from <= i);
                            }
                        }
                        assert forall|v: usize| #[trigger] defined_from(code, from, v) implies assigned(
                            done.map,
                            v,
                        ) by {
                            let i = choose|i: int| from <= i < code.len() && #[trigger] defined_register(code[i]) == Some(v);
                            if i == from {
                                assert(next.map[w as int] is Some);
                            } else {
                                assert(defined_from(code, from + 1, v));
                            }
                        }
                    }
                }
            },
        }
    }
}

/// The walk assigns exactly the registers that the blocks it visits define.
pub proof fn lemma_visit_keys(
    fuel: nat,
    blocks: Seq<BlockView>,
    gq: GraphQuery,
    q: usize,
    map: Seq<Option<MachineRegister>>,
    seen: Seq<bool>,
    current: Seq<(usize, MachineRegister)>,
    pool: Seq<MachineRegister>,
)
    ensures
        visit(fuel, blocks, gq, q, map, seen, current, pool) matches Ok(out) ==> assigns_new(
            blocks,
            map,
            seen,
            out,
        ),
    decreases fuel, 0nat,
{
    if fuel == 0 || q >= blocks.len() || q >= seen.len() || seen[q as int] {
    } else {
        let qi = q as int;
        let code = blocks[qi].code;
        let exits = blocks[qi].exits;
        let entered = release(gq, current, pool, qi, false);
        let start = Assignment { current: entered.0, pool: entered.1, map };
        lemma_allocate_keys(code, 0, start);
        lemma_allocate_extends(code, 0, start);
        match allocate_definitions(code, 0, start) {
            Err(_) => {},
            Ok(a) => {
                let left = release(gq, a.current, a.pool, qi, true);
                let marks = seen.update(qi, true);
                let f = (fuel - 1) as nat;
                lemma_exits_keys(f, blocks, gq, exits, 0, a.map, marks, left.0, left.1);
                lemma_exits_marks(f, blocks, gq, exits, 0, a.map, marks, left.0, left.1);
                lemma_visit_exits_extends(f, blocks, gq, exits, 0, a.map, marks, left.0, left.1);
                match visit_exits(f, blocks, gq, exits, 0, a.map, marks, left.0, left.1) {
                    Err(_) => {},
                    Ok(out) => {
                        assert(marked(marks, qi));
                        assert(marked(out.1, qi));
                        assert forall|v: usize| #[trigger] assigned(out.0, v) && !assigned(map, v) implies exists|
                            b: int,
                        | #[trigger] defined_at_new(blocks, seen, out.1, b, v) by {
                            if assigned(a.map, v) {
                                assert(defined_from(code, 0, v));
                                assert(defined_at_new(blocks, seen, out.1, qi, v));
                            } else {
                                let b = choose|b: int| #[trigger] defined_at_new(blocks, marks, out.1, b, v);
                                assert(defined_at_new(blocks, seen, out.1, b, v));
                            }
                        }
                        assert forall|b: int, v: usize| #[trigger]
                            defined_at_new(blocks, seen, out.1, b, v) implies assigned(out.0, v) by {
                            if b == qi {
                                assert(defined_from(code, 0, v));
                                assert(assigned(a.map, v));
                                assert(a.map[v as int] is Some);
                            } else {
                                assert(!marked(marks, b));
                                assert(defined_at_new(blocks, marks, out.1, b, v));
                            }
                        }
                    },
                }
            },
        }
    }
}

/// The walk into the exits assigns exactly the registers that the blocks it
/// visits define.
pub proof fn lemma_exits_keys(
    fuel: nat,
    blocks: Seq<BlockView>,
    gq: GraphQuery,
    exits: Seq<usize>,
    k: int,
    map: Seq<Option<MachineRegister>>,
    seen: Seq<bool>,
    current: Seq<(usize, MachineRegister)>,
    pool: Seq<MachineRegister>,
)
    ensures
        visit_exits(fuel, blocks, gq, exits, k, map, seen, current, pool) matches Ok(out)
            ==> assigns_new(blocks, map, seen, out),
    decreases fuel, 1 + exits.len() - k,
{
    if k < 0 || k >= exits.len() {
    } else {
        lemma_visit_keys(fuel, blocks, gq, exits[k], map, seen, current, pool);
        lemma_visit_marks(fuel, blocks, gq, exits[k], map, seen, current, pool);
        lemma_visit_extends(fuel, blocks, gq, exits[k], map, seen, current, pool);
        match visit(fuel, blocks, gq, exits[k], map, seen, current, pool) {
            Err(_) => {},
            Ok(step) => {
                lemma_exits_keys(fuel, blocks, gq, exits, k + 1, step.0, step.1, current, pool);
                lemma_exits_marks(fuel, blocks, gq, exits, k + 1, step.0, step.1, current, pool);
                lemma_visit_exits_extends(fuel, blocks, gq, exits, k + 1, step.0, step.1, current, pool);
                match visit_exits(fuel, blocks, gq, exits, k + 1, step.0, step.1, current, pool) {
                    Err(_) => {},
                    Ok(out) => {
                        assert forall|v: usize| #[trigger] assigned(out.0, v) && !assigned(map, v) implies exists|
                            b: int,
                        | #[trigger] defined_at_new(blocks, seen, out.1, b, v) by {
                            if assigned(step.0, v) {
                                let b = choose|b: int| #[trigger] defined_at_new(blocks, seen, step.1, b, v);
                                assert(marked(out.1, b));
                                assert(defined_at_new(blocks, seen, out.1, b, v));
                            } else {
                                let b = choose|b: int| #[trigger] defined_at_new(blocks, step.1, out.1, b, v);
                                if marked(seen, b) {
                                    assert(marked(step.1, b));
                                }
                                assert(defined_at_new(blocks, seen, out.1, b, v));
                            }
                        }
                        assert forall|b: int, v: usize| #[trigger]
                            defined_at_new(blocks, seen, out.1, b, v) implies assigned(out.0, v) by {
                            if marked(step.1, b) {
                                assert(defined_at_new(blocks, seen, step.1, b, v));
                                assert(assigned(step.0, v));
                                assert(step.0[v as int] is Some);
                            } else {
                                assert(defined_at_new(blocks, step.1, out.1, b, v));
                            }
                        }
                    },
                }
            },
        }
    }
}

/// The registers that the register assignment gives a machine register are
/// exactly the registers defined in the blocks that the walk visits.
pub proof fn lemma_allocation_keys(blocks: Seq<BlockView>, start: usize, gq: GraphQuery, nregs: nat, v: usize)
    requires
        allocation_walk(blocks, start, gq, nregs) is Ok,
    ensures
        assigned(allocation_walk(blocks, start, gq, nregs)->Ok_0.0, v) <==> exists|b: int|
            marked(allocation_walk(blocks, start, gq, nregs)->Ok_0.1, b) && b < blocks.len()
                && #[trigger] defined_in(blocks[b].code, v),
{
    let map0 = Seq::new(nregs, |i: int| None::<MachineRegister>);
    let seen0 = Seq::new(blocks.len(), |i: int| false);
    let cur0 = Seq::<(usize, MachineRegister)>::empty();
    let out = allocation_walk(blocks, start, gq, nregs)->Ok_0;
    lemma_visit_keys(blocks.len(), blocks, gq, start, map0, seen0, cur0, initial_pool());
    if assigned(out.0, v) {
        assert(!assigned(map0, v));
        let b = choose|b: int| #[trigger] defined_at_new(blocks, seen0, out.1, b, v);
        assert(marked(out.1, b) && b < blocks.len() && defined_in(blocks[b].code, v));
    }
    if exists|b: int| marked(out.1, b) && b < blocks.len() && #[trigger] defined_in(blocks[b].code, v) {
        let b = choose|b: int| marked(out.1, b) && b < blocks.len() && #[trigger] defined_in(blocks[b].code, v);
        assert(defined_at_new(blocks, seen0, out.1, b, v));
    }
}


/// The edges that the walk follows: from a block to each of its exits.
pub open spec fn exit_edge_set(blocks: Seq<BlockView>) -> Set<(int, int)> {
    Set::new(
        |p: (int, int)|
            0 <= p.0 < blocks.len() && 0 <= p.1 < blocks.len() && p.1 <= usize::MAX
                && blocks[p.0].exits.contains(p.1 as usize),
    )
}

/// Whether every exit of every block that the walk marked is marked.
pub open spec fn closed_new(blocks: Seq<BlockView>, seen: Seq<bool>, marks: Seq<bool>) -> bool {
    forall|b: int, j: int|
        marked(marks, b) && !marked(seen, b) && b < blocks.len() && 0 <= j < blocks[b].exits.len()
            && blocks[b].exits[j] < blocks.len() ==> marked(
            marks,
            #[trigger] blocks[b].exits[j] as int,
        )
}

/// Where a block is not marked, at least one block is left to visit.
pub proof fn lemma_unseen_positive(seen: Seq<bool>, q: int)
    requires
        0 <= q < seen.len(),
        !seen[q],
    ensures
        unseen_count(seen) >= 1,
    decreases seen.len(),
{
    if q < seen.len() - 1 {
        lemma_unseen_positive(seen.drop_last(), q);
    }
}

/// More marks leave no more blocks to visit.
pub proof fn lemma_unseen_monotone(before: Seq<bool>, after: Seq<bool>)
    requires
        marks_extend(before, after),
    ensures
        unseen_count(after) <= unseen_count(before),
    decreases before.len(),
{
    if before.len() > 0 {
        let (b, a) = (before.drop_last(), after.drop_last());
        assert forall|x: int| #[trigger] marked(b, x) implies marked(a, x) by {
            assert(marked(before, x));
            assert(marked(after, x));
        }
        lemma_unseen_monotone(b, a);
        if before.last() {
            assert(marked(before, before.len() - 1));
            assert(marked(after, before.len() - 1));
        }
    }
}

/// With fuel for every block that is left to visit, the walk marks the block it
/// starts from, and every exit of every block it marks.
pub proof fn lemma_visit_closed(
    fuel: nat,
    blocks: Seq<BlockView>,
    gq: GraphQuery,
    q: usize,
    map: Seq<Option<MachineRegister>>,
    seen: Seq<bool>,
    current: Seq<(usize, MachineRegister)>,
    pool: Seq<MachineRegister>,
)
    requires
        seen.len() == blocks.len(),
        unseen_count(seen) <= fuel,
    ensures
        visit(fuel, blocks, gq, q, map, seen, current, pool) matches Ok(out) ==> closed_new(
            blocks,
            seen,
            out.1,
        ) && marks_extend(seen, out.1) && (q < blocks.len() ==> marked(out.1, q as int)),
    decreases fuel, 0nat,
{
    lemma_visit_marks(fuel, blocks, gq, q, map, seen, current, pool);
    if q < blocks.len() && !seen[q as int] {
        lemma_unseen_positive(seen, q as int);
    }
    if fuel == 0 || q >= blocks.len() || q >= seen.len() || seen[q as int] {
    } else {
        let qi = q as int;
        let exits = blocks[qi].exits;
        let entered = release(gq, current, pool, qi, false);
        match allocate_definitions(
            blocks[qi].code,
            0,
            Assignment { current: entered.0, pool: entered.1, map },
        ) {
            Err(_) => {},
            Ok(a) => {
                let left = release(gq, a.current, a.pool, qi, true);
                let marks = seen.update(qi, true);
                let f = (fuel - 1) as nat;
                lemma_mark_seen(seen, qi);
                lemma_exits_closed(f, blocks, gq, exits, 0, a.map, marks, left.0, left.1);
                match visit_exits(f, blocks, gq, exits, 0, a.map, marks, left.0, left.1) {
                    Err(_) => {},
                    Ok(out) => {
                        assert forall|b: int, j: int|
                            marked(out.1, b) && !marked(seen, b) && b < blocks.len() && 0 <= j
                                < blocks[b].exits.len() && blocks[b].exits[j] < blocks.len() implies marked(
                            out.1,
                            #[trigger] blocks[b].exits[j] as int,
                        ) by {
                            if b != qi {
                                assert(!marked(marks, b));
                            }
                        }
                    },
                }
            },
        }
    }
}

/// With fuel for every block that is left to visit, the walk into the exits marks
/// each exit from index `k` on, and every exit of every block it marks.
pub proof fn lemma_exits_closed(
    fuel: nat,
    blocks: Seq<BlockView>,
    gq: GraphQuery,
    exits: Seq<usize>,
    k: int,
    map: Seq<Option<MachineRegister>>,
    seen: Seq<bool>,
    current: Seq<(usize, MachineRegister)>,
    pool: Seq<MachineRegister>,
)
    requires
        seen.len() == blocks.len(),
        unseen_count(seen) <= fuel,
        0 <= k,
    ensures
        visit_exits(fuel, blocks, gq, exits, k, map, seen, current, pool) matches Ok(out)
            ==> closed_new(blocks, seen, out.1) && marks_extend(seen, out.1) && forall|j: int|
            k <= j < exits.len() && (#[trigger] exits[j]) < blocks.len() ==> marked(
                out.1,
                exits[j] as int,
            ),
    decreases fuel, 1 + exits.len() - k,
{
    lemma_exits_marks(fuel, blocks, gq, exits, k, map, seen, current, pool);
    if k >= exits.len() {
    } else {
        lemma_visit_closed(fuel, blocks, gq, exits[k], map, seen, current, pool);
        match visit(fuel, blocks, gq, exits[k], map, seen, current, pool) {
            Err(_) => {},
            Ok(step) => {
                lemma_unseen_monotone(seen, step.1);
                lemma_exits_closed(fuel, blocks, gq, exits, k + 1, step.0, step.1, current, pool);
                match visit_exits(fuel, blocks, gq, exits, k + 1, step.0, step.1, current, pool) {
                    Err(_) => {},
                    Ok(out) => {
                        assert forall|b: int, j: int|
                            marked(out.1, b) && !marked(seen, b) && b < blocks.len() && 0 <= j
                                < blocks[b].exits.len() && blocks[b].exits[j] < blocks.len() implies marked(
                            out.1,
                            #[trigger] blocks[b].exits[j] as int,
                        ) by {
                            if marked(step.1, b) {
                                assert(marked(step.1, blocks[b].exits[j] as int));
                            }
                        }
                        assert forall|j: int|
                            k <= j < exits.len() && (#[trigger] exits[j]) < blocks.len() implies marked(
                            out.1,
                            exits[j] as int,
                        ) by {
                            if j == k {
                                assert(marked(step.1, exits[k] as int));
                            }
                        }
                    },
                }
            },
        }
    }
}

/// Every node reaches itself.
pub proof fn lemma_reach_self(edges: Set<(int, int)>, a: int)
    ensures
        reachable(edges, a, a),
{
    reveal(reachable);
    let p = seq![a];
    assert(is_path(edges, p));
    assert(path_between(edges, p, a, a));
}

/// What the end of an edge reaches, its start reaches.
pub proof fn lemma_reach_step(edges: Set<(int, int)>, a: int, b: int, c: int)
    requires
        edges.contains((a, b)),
        reachable(edges, b, c),
    ensures
        reachable(edges, a, c),
{
    reveal(reachable);
    let p = choose|p: Seq<int>| #[trigger] path_between(edges, p, b, c);
    let w = seq![a] + p;
    assert forall|i: int| 0 <= i < w.len() - 1 implies #[trigger] joined(edges, w, i) by {
        if i == 0 {
            assert(w[0] == a && w[1] == p[0]);
        } else {
            assert(joined(edges, p, i - 1));
            assert(w[i] == p[i - 1] && w[i + 1] == p[i]);
        }
    }
    assert(w.last() == p.last());
    assert(path_between(edges, w, a, c));
}

/// Whether the blocks that the walk marked can be reached from `q` along exits.
pub open spec fn reached_new(blocks: Seq<BlockView>, seen: Seq<bool>, marks: Seq<bool>, q: int) -> bool {
    forall|b: int| #[trigger]
        marked(marks, b) && !marked(seen, b) ==> reachable(exit_edge_set(blocks), q, b)
}

/// The walk marks only blocks that can be reached from the block it starts from.
pub proof fn lemma_visit_reached(
    fuel: nat,
    blocks: Seq<BlockView>,
    gq: GraphQuery,
    q: usize,
    map: Seq<Option<MachineRegister>>,
    seen: Seq<bool>,
    current: Seq<(usize, MachineRegister)>,
    pool: Seq<MachineRegister>,
)
    ensures
        visit(fuel, blocks, gq, q, map, seen, current, pool) matches Ok(out) ==> reached_new(
            blocks,
            seen,
            out.1,
            q as int,
        ),
    decreases fuel, 0nat,
{
    if fuel == 0 || q >= blocks.len() || q >= seen.len() || seen[q as int] {
    } else {
        let qi = q as int;
        let exits = blocks[qi].exits;
        let entered = release(gq, current, pool, qi, false);
        match allocate_definitions(
            blocks[qi].code,
            0,
            Assignment { current: entered.0, pool: entered.1, map },
        ) {
            Err(_) => {},
            Ok(a) => {
                let left = release(gq, a.current, a.pool, qi, true);
                let marks = seen.update(qi, true);
                let f = (fuel - 1) as nat;
                lemma_exits_reached(f, blocks, gq, qi, exits, 0, a.map, marks, left.0, left.1);
                match visit_exits(f, blocks, gq, exits, 0, a.map, marks, left.0, left.1) {
                    Err(_) => {},
                    Ok(out) => {
                        assert forall|b: int| #[trigger]
                            marked(out.1, b) && !marked(seen, b) implies reachable(
                            exit_edge_set(blocks),
                            qi,
                            b,
                        ) by {
                            if b == qi {
                                lemma_reach_self(exit_edge_set(blocks), qi);
                            } else {
                                assert(!marked(marks, b));
                            }
                        }
                    },
                }
            },
        }
    }
}

/// The walk into the exits of block `parent` marks only blocks that can be
/// reached from `parent`.
pub proof fn lemma_exits_reached(
    fuel: nat,
    blocks: Seq<BlockView>,
    gq: GraphQuery,
    parent: int,
    exits: Seq<usize>,
    k: int,
    map: Seq<Option<MachineRegister>>,
    seen: Seq<bool>,
    current: Seq<(usize, MachineRegister)>,
    pool: Seq<MachineRegister>,
)
    requires
        0 <= parent < blocks.len(),
        exits == blocks[parent].exits,
        0 <= k,
    ensures
        visit_exits(fuel, blocks, gq, exits, k, map, seen, current, pool) matches Ok(out)
            ==> reached_new(blocks, seen, out.1, parent),
    decreases fuel, 1 + exits.len() - k,
{
    if k >= exits.len() {
    } else {
        lemma_visit_reached(fuel, blocks, gq, exits[k], map, seen, current, pool);
        lemma_visit_marks(fuel, blocks, gq, exits[k], map, seen, current, pool);
        match visit(fuel, blocks, gq, exits[k], map, seen, current, pool) {
            Err(_) => {},
            Ok(step) => {
                lemma_exits_reached(fuel, blocks, gq, parent, exits, k + 1, step.0, step.1, current, pool);
                match visit_exits(fuel, blocks, gq, exits, k + 1, step.0, step.1, current, pool) {
                    Err(_) => {},
                    Ok(out) => {
                        assert forall|b: int| #[trigger]
                            marked(out.1, b) && !marked(seen, b) implies reachable(
                            exit_edge_set(blocks),
                            parent,
                            b,
                        ) by {
                            if marked(step.1, b) {
                                let e = exits[k] as int;
                                assert(reachable(exit_edge_set(blocks), e, b));
                                // the walk entered the exit, so it is a block
                                assert(e < blocks.len()) by {
                                    if e >= blocks.len() {
                                        assert(step == (map, seen));
                                    }
                                }
                                assert(blocks[parent].exits.contains(e as usize));
                                assert(exit_edge_set(blocks).contains((parent, e)));
                                lemma_reach_step(exit_edge_set(blocks), parent, e, b);
                            } else {
                                if marked(seen, b) {
                                    assert(marked(step.1, b));
                                }
                            }
                        }
                    },
                }
            },
        }
    }
}

/// Along a walk over exits from a marked block every block is marked, where
/// every exit of every marked block is marked.
proof fn lemma_walk_marked(blocks: Seq<BlockView>, marks: Seq<bool>, p: Seq<int>, i: int)
    requires
        closed_new(blocks, Seq::new(marks.len(), |x: int| false), marks),
        is_path(exit_edge_set(blocks), p),
        marked(marks, p[0]),
        p[0] < blocks.len(),
        0 <= i < p.len(),
    ensures
        marked(marks, p[i]),
        p[i] < blocks.len(),
    decreases i,
{
    if i > 0 {
        lemma_walk_marked(blocks, marks, p, i - 1);
        assert(joined(exit_edge_set(blocks), p, i - 1));
        let (a, b) = (p[i - 1], p[i]);
        assert(exit_edge_set(blocks).contains((a, b)));
        let j = choose|j: int| 0 <= j < blocks[a].exits.len() && blocks[a].exits[j] == b as usize;
        assert(!marked(Seq::new(marks.len(), |x: int| false), a));
        assert(blocks[a].exits[j] as int == b);
        assert(marked(marks, blocks[a].exits[j] as int));
    }
}

/// The walk of the register assignment visits exactly the blocks that can be
/// reached from the entry block along exits.
pub proof fn lemma_allocation_visits(
    blocks: Seq<BlockView>,
    start: usize,
    gq: GraphQuery,
    nregs: nat,
    b: int,
)
    requires
        start < blocks.len(),
        allocation_walk(blocks, start, gq, nregs) is Ok,
    ensures
        marked(allocation_walk(blocks, start, gq, nregs)->Ok_0.1, b) <==> reachable(
            exit_edge_set(blocks),
            start as int,
            b,
        ),
{
    let map0 = Seq::new(nregs, |i: int| None::<MachineRegister>);
    let seen0 = Seq::new(blocks.len(), |i: int| false);
    let cur0 = Seq::<(usize, MachineRegister)>::empty();
    let out = allocation_walk(blocks, start, gq, nregs)->Ok_0;
    crate::codegen::x86_64::lemma_unseen_all(blocks.len());
    lemma_visit_closed(blocks.len(), blocks, gq, start, map0, seen0, cur0, initial_pool());
    lemma_visit_reached(blocks.len(), blocks, gq, start, map0, seen0, cur0, initial_pool());
    if marked(out.1, b) {
        assert(!marked(seen0, b));
    }
    if reachable(exit_edge_set(blocks), start as int, b) {
        reveal(reachable);
        let p = choose|p: Seq<int>| #[trigger] path_between(exit_edge_set(blocks), p, start as int, b);
        assert(out.1.len() == blocks.len());
        assert(Seq::new(out.1.len(), |x: int| false) =~= seen0);
        lemma_walk_marked(blocks, out.1, p, p.len() - 1);
    }
}


/// The registers that the register assignment gives a machine register are
/// exactly the registers defined in the blocks that can be reached from the
/// entry block along exits.
pub proof fn lemma_allocation_keys_reachable(
    blocks: Seq<BlockView>,
    start: usize,
    gq: GraphQuery,
    nregs: nat,
    v: usize,
)
    requires
        start < blocks.len(),
        crate::codegen::x86_64::allocation(blocks, start, gq, nregs) is Ok,
    ensures
        assigned(crate::codegen::x86_64::allocation(blocks, start, gq, nregs)->Ok_0, v) <==> exists|
            b: int,
        |
            reachable(exit_edge_set(blocks), start as int, b) && 0 <= b < blocks.len()
                && #[trigger] defined_in(blocks[b].code, v),
{
    let out = allocation_walk(blocks, start, gq, nregs)->Ok_0;
    lemma_allocation_keys(blocks, start, gq, nregs, v);
    if assigned(out.0, v) {
        let b = choose|b: int| marked(out.1, b) && b < blocks.len() && #[trigger] defined_in(blocks[b].code, v);
        lemma_allocation_visits(blocks, start, gq, nregs, b);
    }
    if exists|b: int|
        reachable(exit_edge_set(blocks), start as int, b) && 0 <= b < blocks.len() && #[trigger] defined_in(
            blocks[b].code,
            v,
        ) {
        let b = choose|b: int|
            reachable(exit_edge_set(blocks), start as int, b) && 0 <= b < blocks.len() && #[trigger] defined_in(
                blocks[b].code,
                v,
            );
        lemma_allocation_visits(blocks, start, gq, nregs, b);
        assert(marked(out.1, b) && b < blocks.len() && defined_in(blocks[b].code, v));
    }
}

} // verus!
