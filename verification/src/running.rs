//! What a lowered program does, cycle by cycle: calls take their arguments, and branches go
//! where their conditions say.
use crate::ast::{ExprTree, FuncTree, PortDir, PortTree, ProgramTree, StmtTree};
use crate::ir::{
    block_tree, node_operands, operands_below, BlockTree, Design, Graph, Node, NodeId, RegId, Signal,
    Term,
};
use crate::ir_values::{lemma_value, lemma_value_fits, lemma_value_kept, regs_fit};
use crate::lower::{
    bind_params, enter_call, find, find_in, func_index, is_path, later_splits, leave_call,
    lemma_reach_step, lemma_reached, lower_args, lower_block, lower_call, lower_cond, lower_expr,
    lower_ports, lower_stmt, pending, port_repeats, pruned, rank, reachable, reached, result_slot,
    retarget, splits, width_or, Binding, Low,
};
use crate::lower_types::{
    args_result, block_ok, design_ok, expr_ok, follows_on, func_ok, lemma_add_block, lemma_args, lemma_bind_params,
    lemma_block, lemma_call, lemma_close, lemma_cond, lemma_enter, lemma_enter_call, lemma_expr,
    lemma_follows_refl, lemma_follows_trans, lemma_fresh_temp, lemma_func_index, lemma_leave_call,
    lemma_write, prog_ok, signal_widths, sound, stmts_ok, width_ok, write_ok,
};
use crate::machine::{commit, next, Config};
use crate::meaning::{
    grew, lemma_condition_kept, lemma_expression_kept_behind, meant, own_width, so_far, Moment,
};
use vstd::prelude::*;

verus! {

/// The start of a cycle, as far as a lowering knows the registers.
pub open spec fn seen(st: Low, regs: Seq<u64>, ins: Seq<u64>) -> Moment {
    Moment { regs: regs.take(st.d.regs.len() as int), ins }
}

/// The design keeps the nodes and the registers of a lowering.
pub open spec fn carries(st: Low, d: &Design) -> bool {
    &&& st.d.graph.prefix_of(d.graph())
    &&& st.d.regs.len() <= d.regs@.len()
    &&& forall|r: int| 0 <= r < st.d.regs.len() ==> (#[trigger] d.regs@[r]).width == st.d.regs[r].width
}

/// A design that a lowering ends in: it keeps the nodes and the registers, and all blocks but
/// the one that is not closed yet.
pub open spec fn ends_in(st: Low, d: &Design) -> bool {
    &&& carries(st, d)
    &&& st.d.blocks.len() <= d.blocks@.len()
    &&& forall|b: int|
        0 <= b < st.d.blocks.len() && b != st.cur ==> block_tree(#[trigger] d.blocks@[b]) == st.d.blocks[b]
}

proof fn lemma_carries(st: Low, later: Low, d: &Design)
    requires
        st.d.graph.prefix_of(later.d.graph),
        st.d.regs.is_prefix_of(later.d.regs),
        carries(later, d),
    ensures
        carries(st, d),
{
    assert forall|r: int| 0 <= r < st.d.regs.len() implies (#[trigger] d.regs@[r]).width == st.d.regs[r].width by {
        assert(later.d.regs[r] == st.d.regs[r]);
    }
}

/// The registers hold words of their widths.
pub open spec fn words(d: &Design, regs: Seq<u64>) -> bool {
    regs_fit(d.reg_widths(), regs)
}

/// More registers change no value.
proof fn lemma_value_more(g: Graph, rw: Seq<u32>, iw: Seq<u32>, few: Seq<u64>, many: Seq<u64>, ins: Seq<u64>, id: NodeId)
    requires
        g.typed(rw, iw),
        few.len() == rw.len() <= many.len(),
        forall|r: int| 0 <= r < few.len() ==> #[trigger] many[r] == few[r],
        id < g.len(),
    ensures
        g.value(many, ins, id) == g.value(few, ins, id),
    decreases id,
{
    lemma_value(g, few, ins, id);
    lemma_value(g, many, ins, id);
    let n = g.nodes[id as int];
    let f = |x: u32| g.value(few, ins, x);
    let h = |x: u32| g.value(many, ins, x);
    assert(operands_below(n, id as int));
    assert(crate::ir::typed_as(g, rw, iw, n, g.widths[id as int]));
    let o = node_operands(n);
    assert forall|k: int| 0 <= k < o.len() implies f(#[trigger] o[k]) == h(o[k]) by {
        lemma_value_more(g, rw, iw, few, many, ins, o[k]);
    }
    assert(o.len() > 0 ==> f(o[0]) == h(o[0]));
    assert(o.len() > 1 ==> f(o[1]) == h(o[1]));
    assert(o.len() > 2 ==> f(o[2]) == h(o[2]));
}

/// A node has the value in the design that it had when it was lowered.
proof fn lemma_node_stays(prog: ProgramTree, st: Low, d: &Design, regs: Seq<u64>, ins: Seq<u64>, v: NodeId)
    requires
        sound(prog, st),
        st.d.graph.prefix_of(d.graph()),
        st.d.regs.len() <= regs.len(),
        v < st.d.graph.len(),
    ensures
        d.graph().value(regs, ins, v) == st.d.graph.value(seen(st, regs, ins).regs, ins, v),
{
    let rw = signal_widths(st.d.regs);
    let iw = signal_widths(st.d.inputs);
    lemma_value_kept(st.d.graph, d.graph(), regs, ins, v);
    lemma_value_more(st.d.graph, rw, iw, seen(st, regs, ins).regs, regs, ins, v);
}

proof fn lemma_seen_fits(prog: ProgramTree, st: Low, d: &Design, regs: Seq<u64>, ins: Seq<u64>)
    requires
        carries(st, d),
        words(d, regs),
    ensures
        regs_fit(signal_widths(st.d.regs), seen(st, regs, ins).regs),
{
    let rw = signal_widths(st.d.regs);
    assert forall|r: int| 0 <= r < rw.len() implies crate::bits::fits(
        #[trigger] seen(st, regs, ins).regs[r],
        rw[r],
    ) by {
        assert(d.regs@[r].width == st.d.regs[r].width);
        assert(d.reg_widths()[r] == rw[r]);
        assert(crate::bits::fits(regs[r], d.reg_widths()[r]));
    }
}

/// At the end of a cycle the first `n` registers take what their variables stand for.
proof fn lemma_commit_more(prog: ProgramTree, st: Low, d: &Design, regs: Seq<u64>, ins: Seq<u64>, n: nat)
    requires
        sound(prog, st),
        carries(st, d),
        words(d, regs),
        n <= st.d.regs.len() <= u32::MAX,
    ensures
        ({
            let after = commit(d, regs, ins, pending(st.env, st.d.graph, n));
            &&& after.len() == regs.len()
            &&& forall|r: RegId|
                r < n ==> #[trigger] after[r as int] == so_far(st, seen(st, regs, ins), Binding::Reg(r))
            &&& forall|r: int| n <= r < after.len() ==> #[trigger] after[r] == regs[r]
        }),
    decreases n,
{
    if n > 0 {
        lemma_commit_more(prog, st, d, regs, ins, (n - 1) as nat);
        lemma_seen_fits(prog, st, d, regs, ins);
        let r = (n - 1) as u32;
        let before = pending(st.env, st.d.graph, (n - 1) as nat);
        let g = st.d.graph;
        let m = seen(st, regs, ins);
        let rw = signal_widths(st.d.regs);
        let iw = signal_widths(st.d.inputs);
        assert(m.regs[r as int] == regs[r as int]);
        if st.env.contains_key(r) {
            let v = st.env[r];
            assert(write_ok(st.d, r, v));
            lemma_node_stays(prog, st, d, regs, ins, v);
            lemma_value_fits(g, rw, iw, m.regs, ins, v);
            assert(d.regs@[r as int].width == rw[r as int]);
            if g.node(v) != Node::Reg(r) {
                let now = pending(st.env, g, n);
                assert(now.drop_last() =~= before);
                assert(now.last() == (r, v));
            } else {
                lemma_value(g, m.regs, ins, v);
            }
        }
    }
}

/// Closing a block: a machine that runs it goes on with every variable in its register.
proof fn lemma_closed(prog: ProgramTree, st: Low, later: Low, d: &Design, regs: Seq<u64>, ins: Seq<u64>, term: Term)
    requires
        sound(prog, st),
        st.d.regs.len() <= u32::MAX,
        st.d.blocks.len() <= later.d.blocks.len(),
        later.d.blocks[st.cur as int] == st.close(term).d.blocks[st.cur as int],
        later.cur != st.cur,
        st.d.graph.prefix_of(later.d.graph),
        st.d.regs.is_prefix_of(later.d.regs),
        ends_in(later, d),
        words(d, regs),
    ensures
        ({
            let c = next(d, ins, Config { regs, state: st.cur, done: false });
            &&& c.regs.len() == regs.len()
            &&& forall|r: RegId|
                r < st.d.regs.len() ==> #[trigger] c.regs[r as int] == so_far(
                    st,
                    seen(st, regs, ins),
                    Binding::Reg(r),
                )
            &&& c.done == (term is Halt)
            &&& c.state == match term {
                Term::Jump(t) => t,
                Term::Branch { cond, then_b, else_b } => if d.graph().value(regs, ins, cond) & 1u64 == 1u64 {
                    then_b
                } else {
                    else_b
                },
                Term::Halt => st.cur,
            }
        }),
{
    lemma_carries(st, later, d);
    let b = d.blocks@[st.cur as int];
    assert(block_tree(d.blocks@[st.cur as int]) == later.d.blocks[st.cur as int]);
    lemma_commit_more(prog, st, d, regs, ins, st.d.regs.len());
}

// --- calls -----------------------------------------------------------------------------------------

/// The arguments from the `i`th on are lowered to nodes that show what they mean.
proof fn lemma_args_meant(
    prog: ProgramTree,
    base: Low,
    st: Low,
    m: Moment,
    f: FuncTree,
    args: Seq<ExprTree>,
    i: nat,
    vals: Seq<NodeId>,
)
    requires
        prog_ok(prog),
        sound(prog, base),
        sound(prog, st),
        st.roomy(),
        grew(base, st),
        regs_fit(signal_widths(base.d.regs), m.regs),
        func_ok(f),
        f.params.len() == args.len(),
        forall|k: int| 0 <= k < args.len() ==> expr_ok(#[trigger] args[k]) && !splits(args[k]),
        vals.len() == i,
        i <= args.len(),
        forall|k: int|
            0 <= k < i ==> (#[trigger] vals[k]) < st.d.graph.len() && st.d.graph.value(m.regs, m.ins, vals[k])
                == meant(prog, base, m, args[k], Some(f.params[k].ty.width)),
    ensures
        match lower_args(prog, st, f.params, args, i, vals) {
            Ok((later, all)) => {
                &&& grew(base, later)
                &&& all.len() == args.len()
                &&& forall|k: int|
                    0 <= k < args.len() ==> (#[trigger] all[k]) < later.d.graph.len() && later.d.graph.value(
                        m.regs,
                        m.ins,
                        all[k],
                    ) == meant(prog, base, m, args[k], Some(f.params[k].ty.width))
            },
            Err(_) => true,
        },
    decreases args.len() - i,
{
    if i < args.len() {
        let w = f.params[i as int].ty.width;
        assert(width_ok(f.params[i as int].ty.width));
        assert(expr_ok(args[i as int]) && !splits(args[i as int]));
        lemma_expression_kept_behind(prog, base, st, m, args[i as int], Some(w));
        lemma_expression_kept_behind(prog, st, st, m, args[i as int], Some(w));
        lemma_expr(prog, st, args[i as int], Some(w));
        assert(!later_splits(args, i as int + 1));
        if let Ok((st1, v)) = lower_expr(prog, st, args[i as int], Some(w)) {
            assert forall|k: int| 0 <= k < i + 1 implies (#[trigger] vals.push(v)[k]) < st1.d.graph.len()
                && st1.d.graph.value(m.regs, m.ins, vals.push(v)[k]) == meant(
                prog,
                base,
                m,
                args[k],
                Some(f.params[k].ty.width),
            ) by {
                if k < i {
                    assert(vals[k] < st.d.graph.len());
                    lemma_value_kept(st.d.graph, st1.d.graph, m.regs, m.ins, vals[k]);
                }
            }
            if st1.roomy() {
                lemma_args_meant(prog, base, st1, m, f, args, i + 1, vals.push(v));
            }
        }
    }
}

/// The `k`th parameter has a register of its own, which is written with the `k`th value.
proof fn lemma_params_bound(prog: ProgramTree, st: Low, f: FuncTree, vals: Seq<NodeId>, n: nat)
    requires
        n <= f.params.len(),
    ensures
        match bind_params(st, f.params, vals, n) {
            Ok((later, frame)) => {
                &&& frame.len() == n
                &&& later.d.regs.len() == st.d.regs.len() + n
                &&& n > 0 ==> st.d.regs.len() + n <= u32::MAX
                &&& forall|k: int|
                    0 <= k < n ==> (#[trigger] frame[k]).0 == f.params[k].name && frame[k].1 == Binding::Reg(
                        (st.d.regs.len() + k) as u32,
                    )
                &&& forall|k: int|
                    0 <= k < n ==> #[trigger] later.env.contains_key((st.d.regs.len() + k) as u32) && later.env[(
                    st.d.regs.len() + k) as u32] == vals[k]
                &&& forall|r: RegId|
                    r < st.d.regs.len() ==> (#[trigger] later.env.contains_key(r) <==> st.env.contains_key(r)) && (
                    st.env.contains_key(r) ==> later.env[r] == st.env[r])
                &&& later.cur == st.cur
                &&& later.d.blocks == st.d.blocks
                &&& later.d.graph == st.d.graph
                &&& later.scopes == st.scopes
            },
            Err(_) => true,
        },
    decreases n,
{
    if n > 0 {
        lemma_params_bound(prog, st, f, vals, (n - 1) as nat);
        if let Ok((st1, frame)) = bind_params(st, f.params, vals, (n - 1) as nat) {
            let r = st1.d.regs.len() as u32;
            if let Ok((later, all)) = bind_params(st, f.params, vals, n) {
                assert(r == st.d.regs.len() + n - 1);
                assert forall|k: int| 0 <= k < n implies #[trigger] later.env.contains_key(
                    (st.d.regs.len() + k) as u32,
                ) && later.env[(st.d.regs.len() + k) as u32] == vals[k] by {
                    if k < n - 1 {
                        assert(st1.env.contains_key((st.d.regs.len() + k) as u32));
                    }
                }
            }
        }
    }
}

/// A name is found in the innermost scope, where it stands once.
proof fn lemma_found(scopes: Seq<Seq<(Seq<char>, Binding)>>, k: int, n: int)
    requires
        scopes.len() > 0,
        0 <= k < n <= scopes.last().len(),
        forall|i: int|
            0 <= i < scopes.last().len() && i != k ==> (#[trigger] scopes.last()[i]).0 != scopes.last()[k].0,
    ensures
        find_in(scopes.last(), scopes.last()[k].0, n) == Some(scopes.last()[k].1),
    decreases n,
{
    if k < n - 1 {
        assert(scopes.last()[n - 1].0 != scopes.last()[k].0);
        lemma_found(scopes, k, n - 1);
    }
}

/// The body of `f` is lowered from `entry`, in `later`.
pub open spec fn body_lowered(prog: ProgramTree, f: FuncTree, entry: Low, later: Low) -> bool {
    lower_block(prog, entry, f.body) matches Ok(end) && {
        let end = end.0;
        &&& later.d.regs == end.d.regs
        &&& end.d.graph.prefix_of(later.d.graph)
        &&& later.d.blocks.len() == end.d.blocks.len()
        &&& forall|b: int|
            0 <= b < end.d.blocks.len() && b != end.cur ==> #[trigger] later.d.blocks[b] == end.d.blocks[b]
        // Behind its end the caller goes on.
        &&& later.d.blocks[end.cur as int].term == Term::Jump(later.cur)
        &&& later.d.blocks[end.cur as int].assigns == pending(end.env, end.d.graph, end.d.regs.len())
    }
}

/// The registers hold what the variables of `st` stood for.
pub open spec fn commits(st: Low, m: Moment, regs: Seq<u64>) -> bool {
    forall|r: RegId| r < st.d.regs.len() ==> #[trigger] regs[r as int] == so_far(st, m, Binding::Reg(r))
}

/// In `entry` the name of each parameter stands for a register that holds what that argument
/// meant in `st`, at the parameter's width.
pub open spec fn takes(
    prog: ProgramTree,
    st: Low,
    m: Moment,
    f: FuncTree,
    args: Seq<ExprTree>,
    entry: Low,
    regs: Seq<u64>,
) -> bool {
    &&& args.len() == f.params.len()
    &&& forall|i: int|
        0 <= i < args.len() ==> (entry.lookup((#[trigger] f.params[i]).name) matches Some(Binding::Reg(r))
            && r < regs.len() && regs[r as int] == meant(prog, st, m, args[i], Some(f.params[i].ty.width)))
}

/// A call takes its arguments. Once the calling block has committed, the machine is where the
/// body of the function begins, the name of each parameter stands for a register that holds
/// what that argument meant to the caller, at the parameter's width, and every register of
/// the caller holds what its variable stood for.
pub proof fn lemma_call_begins(
    prog: ProgramTree,
    st: Low,
    name: Seq<char>,
    k: int,
    args: Seq<ExprTree>,
    span: crate::lexer::Span,
    d: &Design,
    regs: Seq<u64>,
    ins: Seq<u64>,
)
    requires
        prog_ok(prog),
        sound(prog, st),
        st.roomy(),
        func_index(prog, name, 0) == Some(k),
        forall|i: int| 0 <= i < args.len() ==> expr_ok(#[trigger] args[i]) && !splits(args[i]),
        forall|i: int, j: int|
            0 <= i < j < prog.funcs[k].params.len() ==> (#[trigger] prog.funcs[k].params[i]).name != (
            #[trigger] prog.funcs[k].params[j]).name,
        lower_call(prog, st, name, args, span) matches Ok(r) && ends_in(r.0, d),
        words(d, regs),
    ensures
        ({
            let f = prog.funcs[k];
            let later = lower_call(prog, st, name, args, span)->Ok_0.0;
            let m = seen(st, regs, ins);
            let c = next(d, ins, Config { regs, state: st.cur, done: false });
            exists|entry: Low| #[trigger]
                body_lowered(prog, f, entry, later) && entry.cur == c.state && !c.done && entry.env == Map::<
                    RegId,
                    NodeId,
                >::empty() && entry.scopes.drop_last() == st.scopes && takes(prog, st, m, f, args, entry, c.regs)
                    && commits(st, m, c.regs)
        }),
{
    let f = prog.funcs[k];
    let (later, v) = lower_call(prog, st, name, args, span)->Ok_0;
    lemma_func_index(prog, name, 0);
    assert(func_ok(f));
    lemma_call(prog, st, name, args, span);
    lemma_carries(st, later, d);
    let m = seen(st, regs, ins);
    lemma_seen_fits(prog, st, d, regs, ins);
    lemma_args_meant(prog, st, st, m, f, args, 0, seq![]);
    lemma_args(prog, st, f.params, args, 0, seq![]);
    let (st1, vals) = lower_args(prog, st, f.params, args, 0, seq![])->Ok_0;
    let (st2, slot) = result_slot(st1, f);
    lemma_follows_refl(st1);
    if let Some(t) = f.ret {
        lemma_fresh_temp(prog, st1, t.width);
    }
    assert(args_result(st2, f.params, vals));
    lemma_bind_params(prog, st2, f.params, vals, f.params.len());
    let (st3, frame) = bind_params(st2, f.params, vals, f.params.len())->Ok_0;
    lemma_enter_call(prog, st3, name, frame, slot);
    let (entry, ret_block) = enter_call(st3, name, frame, slot);
    lemma_block(prog, entry, f.body);
    let (end, _) = lower_block(prog, entry, f.body)->Ok_0;
    lemma_leave_call(prog, entry, end, ret_block);
    let st6 = leave_call(end, ret_block);
    assert(st3.d.regs.len() <= end.d.regs.len());
    lemma_params_bound(prog, st2, f, vals, f.params.len());
    assert(body_lowered(prog, f, entry, later));
    // The calling block.
    let body = entry.cur;
    assert(entry.d.blocks[st3.cur as int] == end.d.blocks[st3.cur as int]);
    lemma_closed(prog, st3, later, d, regs, ins, Term::Jump(body));
    let c = next(d, ins, Config { regs, state: st.cur, done: false });
    assert(entry.scopes.drop_last() =~= st.scopes);
    assert forall|i: int| 0 <= i < args.len() implies (entry.lookup((#[trigger] f.params[i]).name) matches Some(
        Binding::Reg(r),
    ) && r < c.regs.len() && c.regs[r as int] == meant(prog, st, m, args[i], Some(f.params[i].ty.width))) by {
        assert(entry.scopes.last() == frame);
        assert(frame[i].0 == f.params[i].name);
        assert forall|j: int| 0 <= j < frame.len() && j != i implies (#[trigger] frame[j]).0 != frame[i].0 by {
            assert(frame[j].0 == f.params[j].name);
            if j < i {
                assert(f.params[j].name != f.params[i].name);
            } else {
                assert(f.params[i].name != f.params[j].name);
            }
        }
        lemma_found(entry.scopes, i, frame.len() as int);
        let r = (st2.d.regs.len() + i) as u32;
        assert(st3.env.contains_key((st2.d.regs.len() + i) as u32));
        assert(c.regs[r as int] == so_far(st3, seen(st3, regs, ins), Binding::Reg(r)));
        lemma_two_views(prog, st1, st3, d, regs, ins, vals[i]);
    }
    assert forall|r: RegId| r < st.d.regs.len() implies #[trigger] c.regs[r as int] == so_far(st, m, Binding::Reg(r)) by {
        assert(c.regs[r as int] == so_far(st3, seen(st3, regs, ins), Binding::Reg(r)));
        if st.env.contains_key(r) {
            assert(write_ok(st.d, r, st.env[r]));
            lemma_two_views(prog, st, st3, d, regs, ins, st.env[r]);
        }
    }
}

/// A node shows the same, however many registers there are.
proof fn lemma_two_views(prog: ProgramTree, st: Low, later: Low, d: &Design, regs: Seq<u64>, ins: Seq<u64>, v: NodeId)
    requires
        sound(prog, st),
        sound(prog, later),
        st.d.graph.prefix_of(later.d.graph),
        later.d.graph.prefix_of(d.graph()),
        st.d.regs.len() <= later.d.regs.len() <= regs.len(),
        v < st.d.graph.len(),
    ensures
        later.d.graph.value(seen(later, regs, ins).regs, ins, v) == st.d.graph.value(seen(st, regs, ins).regs, ins, v),
{
    lemma_node_stays(prog, later, d, regs, ins, v);
    assert(st.d.graph.prefix_of(d.graph())) by {
        assert forall|i: int| 0 <= i < st.d.graph.nodes.len() implies #[trigger] d.graph().nodes[i]
            == st.d.graph.nodes[i] && d.graph().widths[i] == st.d.graph.widths[i] by {
            assert(later.d.graph.nodes[i] == st.d.graph.nodes[i]);
        }
    }
    lemma_node_stays(prog, st, d, regs, ins, v);
}

// --- branches ----------------------------------------------------------------------------------------

/// The statements of `b` are lowered from `entry`, in `later`, and behind their end the
/// machine goes on at `to`.
pub open spec fn block_lowered(prog: ProgramTree, b: Seq<StmtTree>, entry: Low, later: Low, to: u32) -> bool {
    lower_block(prog, entry, b) matches Ok(end) && {
        let end = end.0;
        &&& end.d.regs.is_prefix_of(later.d.regs)
        &&& end.d.graph.prefix_of(later.d.graph)
        &&& end.d.blocks.len() <= later.d.blocks.len()
        &&& later.d.blocks[end.cur as int].term == Term::Jump(to)
        &&& later.d.blocks[end.cur as int].assigns == pending(end.env, end.d.graph, end.d.regs.len())
    }
}

/// The same names as in `st`, and nothing pending.
pub open spec fn goes_on(st: Low, entry: Low) -> bool {
    entry.scopes == st.scopes && entry.env == Map::<RegId, NodeId>::empty() && entry.rets == st.rets
        && entry.stack == st.stack
}

/// The bit that a condition is lowered to.
proof fn lemma_tested(prog: ProgramTree, st: Low, st1: Low, d: &Design, regs: Seq<u64>, ins: Seq<u64>, cond: ExprTree, c: NodeId)
    requires
        prog_ok(prog),
        sound(prog, st),
        st.roomy(),
        expr_ok(cond),
        !splits(cond),
        lower_cond(prog, st, cond) == Ok::<(Low, NodeId), Seq<char>>((st1, c)),
        carries(st1, d),
        words(d, regs),
    ensures
        grew(st, st1),
        sound(prog, st1),
        st1.roomy(),
        c < st1.d.graph.len(),
        st1.d.graph.width(c) == 1,
        (d.graph().value(regs, ins, c) & 1u64 == 1u64) <==> meant(
            prog,
            st,
            seen(st, regs, ins),
            cond,
            Some(width_or(own_width(prog, st, cond), 1)),
        ) != 0,
{
    let m = seen(st, regs, ins);
    lemma_cond(prog, st, cond);
    assert(carries(st, d)) by {
        lemma_condition_grows(prog, st, cond, m);
        lemma_carries(st, st1, d);
    }
    lemma_seen_fits(prog, st, d, regs, ins);
    lemma_condition_kept(prog, st, m, cond);
    lemma_node_stays(prog, st1, d, regs, ins, c);
    let v = meant(prog, st, m, cond, Some(width_or(own_width(prog, st, cond), 1)));
    crate::bits::lemma_flag(v != 0);
    assert(0u64 & 1u64 == 0u64 && 1u64 & 1u64 == 1u64) by (bit_vector);
}

proof fn lemma_condition_grows(prog: ProgramTree, st: Low, cond: ExprTree, m: Moment)
    requires
        prog_ok(prog),
        sound(prog, st),
        st.roomy(),
        expr_ok(cond),
    ensures
        lower_cond(prog, st, cond) matches Ok(r) ==> follows_on(st, r.0),
{
    lemma_cond(prog, st, cond);
}

/// What an `if` does: in one cycle all variables are committed, and the machine goes where
/// the first statements were lowered if the condition is other than zero, else where the
/// others were; both go on behind the `if`.
pub open spec fn branches(
    prog: ProgramTree,
    st: Low,
    cond: ExprTree,
    then_b: Seq<StmtTree>,
    else_b: Seq<StmtTree>,
    later: Low,
    m: Moment,
    c: Config,
    yes: Low,
    no: Low,
) -> bool {
    &&& goes_on(st, yes)
    &&& goes_on(st, no)
    &&& yes.cur != no.cur
    &&& block_lowered(prog, then_b, yes, later, later.cur)
    &&& block_lowered(prog, else_b, no, later, later.cur)
    &&& !c.done
    &&& c.state == if meant(prog, st, m, cond, Some(width_or(own_width(prog, st, cond), 1))) != 0 {
        yes.cur
    } else {
        no.cur
    }
    &&& commits(st, m, c.regs)
}

/// An `if` goes where its condition says.
pub proof fn lemma_if_branches(
    prog: ProgramTree,
    st: Low,
    cond: ExprTree,
    then_b: Seq<StmtTree>,
    else_b: Seq<StmtTree>,
    span: crate::lexer::Span,
    d: &Design,
    regs: Seq<u64>,
    ins: Seq<u64>,
)
    requires
        prog_ok(prog),
        sound(prog, st),
        st.roomy(),
        expr_ok(cond),
        !splits(cond),
        stmts_ok(then_b),
        stmts_ok(else_b),
        lower_stmt(prog, st, StmtTree::If { cond, then_b, else_b: Some(else_b), span }) matches Ok(r) && ends_in(r.0, d),
        words(d, regs),
    ensures
        ({
            let later = lower_stmt(prog, st, StmtTree::If { cond, then_b, else_b: Some(else_b), span })->Ok_0.0;
            let c = next(d, ins, Config { regs, state: st.cur, done: false });
            exists|yes: Low, no: Low| #[trigger]
                branches(prog, st, cond, then_b, else_b, later, seen(st, regs, ins), c, yes, no)
        }),
{
    let s = StmtTree::If { cond, then_b, else_b: Some(else_b), span };
    let later = lower_stmt(prog, st, s)->Ok_0.0;
    let (st1, c) = lower_cond(prog, st, cond)->Ok_0;
    lemma_cond(prog, st, cond);
    let (st2, then_id) = st1.add_block("if.then"@);
    let (st3, else_id) = st2.add_block("if.else"@);
    let (st4, join_id) = st3.add_block("if.join"@);
    lemma_add_block(prog, st1, "if.then"@);
    lemma_add_block(prog, st2, "if.else"@);
    lemma_add_block(prog, st3, "if.join"@);
    let term = Term::Branch { cond: c, then_b: then_id, else_b: else_id };
    lemma_close(prog, st4, term);
    let st4c = st4.close(term);
    lemma_enter(prog, st4c, then_id);
    let yes = st4c.enter(then_id);
    lemma_block(prog, yes, then_b);
    let (st6, _) = lower_block(prog, yes, then_b)->Ok_0;
    lemma_close(prog, st6, Term::Jump(join_id));
    let st6c = st6.close(Term::Jump(join_id));
    lemma_enter(prog, st6c, else_id);
    let no = st6c.enter(else_id);
    lemma_block(prog, no, else_b);
    let (st8, _) = lower_block(prog, no, else_b)->Ok_0;
    lemma_close(prog, st8, Term::Jump(join_id));
    let st8c = st8.close(Term::Jump(join_id));
    assert(later == st8c.enter(join_id));
    lemma_follows_trans(yes, st6, st6c);
    lemma_tested_later(prog, st, st1, later, st4, yes, st6c, no, st8, st8c, d);
    lemma_tested(prog, st, st1, d, regs, ins, cond, c);
    // The block that was current closes with the branch, and stays so.
    let b = st.cur as int;
    assert(st4.cur == st.cur);
    assert(st6.d.blocks[b] == yes.d.blocks[b]);
    assert(no.d.blocks[b] == st6c.d.blocks[b]);
    assert(st8.d.blocks[b] == no.d.blocks[b]);
    assert(later.d.blocks[b] == st4c.d.blocks[b]);
    lemma_closed(prog, st4, later, d, regs, ins, term);
    let m = seen(st, regs, ins);
    let k = next(d, ins, Config { regs, state: st.cur, done: false });
    assert(seen(st4, regs, ins) == m);
    assert forall|r: RegId| r < st.d.regs.len() implies #[trigger] k.regs[r as int] == so_far(st, m, Binding::Reg(r)) by {
        assert(k.regs[r as int] == so_far(st4, m, Binding::Reg(r)));
        if st.env.contains_key(r) {
            assert(write_ok(st.d, r, st.env[r]));
            lemma_value_kept(st.d.graph, st4.d.graph, m.regs, m.ins, st.env[r]);
        }
    }
    // Both ends go on behind the `if`.
    assert(st8.d.blocks[st6.cur as int] == no.d.blocks[st6.cur as int]);
    assert(block_lowered(prog, then_b, yes, later, later.cur));
    assert(block_lowered(prog, else_b, no, later, later.cur));
    assert(branches(prog, st, cond, then_b, else_b, later, m, k, yes, no));
}

/// What is there when the condition has been lowered is there in the end.
proof fn lemma_tested_later(
    prog: ProgramTree,
    st: Low,
    st1: Low,
    later: Low,
    st4: Low,
    yes: Low,
    st6c: Low,
    no: Low,
    st8: Low,
    st8c: Low,
    d: &Design,
)
    requires
        st1.d.graph == st4.d.graph,
        st1.d.regs == st4.d.regs,
        yes.d.graph == st4.d.graph,
        yes.d.regs == st4.d.regs,
        follows_on(yes, st6c),
        no.d.graph == st6c.d.graph,
        no.d.regs == st6c.d.regs,
        follows_on(no, st8),
        st8c.d.graph == st8.d.graph,
        st8c.d.regs == st8.d.regs,
        later.d.graph == st8c.d.graph,
        later.d.regs == st8c.d.regs,
        ends_in(later, d),
    ensures
        st1.d.graph.prefix_of(later.d.graph),
        st1.d.regs.is_prefix_of(later.d.regs),
        carries(st1, d),
{
    assert forall|i: int| 0 <= i < st1.d.graph.nodes.len() implies #[trigger] later.d.graph.nodes[i]
        == st1.d.graph.nodes[i] && later.d.graph.widths[i] == st1.d.graph.widths[i] by {
        assert(st6c.d.graph.nodes[i] == yes.d.graph.nodes[i]);
        assert(st8.d.graph.nodes[i] == no.d.graph.nodes[i]);
    }
    assert forall|i: int| 0 <= i < st1.d.graph.widths.len() implies #[trigger] later.d.graph.widths[i]
        == st1.d.graph.widths[i] by {
        assert(st6c.d.graph.widths[i] == yes.d.graph.widths[i]);
        assert(st8.d.graph.widths[i] == no.d.graph.widths[i]);
    }
    assert forall|r: int| 0 <= r < st1.d.regs.len() implies #[trigger] later.d.regs[r] == st1.d.regs[r] by {
        assert(st6c.d.regs[r] == yes.d.regs[r]);
        assert(st8.d.regs[r] == no.d.regs[r]);
    }
    lemma_carries(st1, later, d);
}

// --- loops -----------------------------------------------------------------------------------------------

/// What a `while` does: `head` is where its condition is tested, anew each time. There the
/// machine goes where the body was lowered if the condition is other than zero, else behind
/// the loop; and from the end of the body it goes back to the head.
pub open spec fn loops(
    prog: ProgramTree,
    st: Low,
    cond: ExprTree,
    body: Seq<StmtTree>,
    later: Low,
    d: &Design,
    ins: Seq<u64>,
    head: Low,
    inner: Low,
) -> bool {
    &&& goes_on(st, head)
    &&& goes_on(st, inner)
    &&& inner.cur != later.cur
    &&& block_lowered(prog, body, inner, later, head.cur)
    &&& forall|regs: Seq<u64>| #[trigger]
        words(d, regs) ==> {
            let m = seen(head, regs, ins);
            let c = next(d, ins, Config { regs, state: head.cur, done: false });
            &&& !c.done
            &&& c.state == if meant(prog, head, m, cond, Some(width_or(own_width(prog, head, cond), 1))) != 0 {
                inner.cur
            } else {
                later.cur
            }
            &&& commits(head, m, c.regs)
        }
}

/// A `while` tests its condition, runs its body and comes back, until the condition is zero.
pub proof fn lemma_while_loops(
    prog: ProgramTree,
    st: Low,
    cond: ExprTree,
    body: Seq<StmtTree>,
    span: crate::lexer::Span,
    d: &Design,
    ins: Seq<u64>,
)
    requires
        prog_ok(prog),
        sound(prog, st),
        st.roomy(),
        expr_ok(cond),
        !splits(cond),
        stmts_ok(body),
        lower_stmt(prog, st, StmtTree::While { cond, body, span }) matches Ok(r) && ends_in(r.0, d),
    ensures
        ({
            let later = lower_stmt(prog, st, StmtTree::While { cond, body, span })->Ok_0.0;
            exists|head: Low, inner: Low| #[trigger]
                loops(prog, st, cond, body, later, d, ins, head, inner) && forall|regs: Seq<u64>| #[trigger]
                words(d, regs) ==> {
                    let c = next(d, ins, Config { regs, state: st.cur, done: false });
                    &&& !c.done
                    &&& c.state == head.cur
                    &&& commits(st, seen(st, regs, ins), c.regs)
                }
        }),
{
    let s = StmtTree::While { cond, body, span };
    let later = lower_stmt(prog, st, s)->Ok_0.0;
    let (st1, head_id) = st.add_block("while.head"@);
    lemma_add_block(prog, st, "while.head"@);
    lemma_close(prog, st1, Term::Jump(head_id));
    let st1c = st1.close(Term::Jump(head_id));
    lemma_enter(prog, st1c, head_id);
    let head = st1c.enter(head_id);
    let (st3, c) = lower_cond(prog, head, cond)->Ok_0;
    lemma_cond(prog, head, cond);
    let (st4, body_id) = st3.add_block("while.body"@);
    let (st5, exit_id) = st4.add_block("while.exit"@);
    lemma_add_block(prog, st3, "while.body"@);
    lemma_add_block(prog, st4, "while.exit"@);
    let term = Term::Branch { cond: c, then_b: body_id, else_b: exit_id };
    lemma_close(prog, st5, term);
    let st5c = st5.close(term);
    lemma_enter(prog, st5c, body_id);
    let inner = st5c.enter(body_id);
    lemma_block(prog, inner, body);
    let (st7, _) = lower_block(prog, inner, body)->Ok_0;
    lemma_close(prog, st7, Term::Jump(head_id));
    let st7c = st7.close(Term::Jump(head_id));
    assert(later == st7c.enter(exit_id));
    lemma_loop_later(head, st3, inner, st7, later, d);
    assert(st7.d.blocks[st.cur as int] == inner.d.blocks[st.cur as int]);
    assert(st7.d.blocks[head_id as int] == inner.d.blocks[head_id as int]);
    lemma_condition_same_place(prog, head, cond);
    assert(st3.cur == head.cur && st3.d.blocks == head.d.blocks);
    assert(later.d.blocks[st.cur as int] == st1c.d.blocks[st.cur as int]);
    assert(later.d.blocks[head_id as int] == st5c.d.blocks[head_id as int]);
    assert forall|regs: Seq<u64>| #[trigger] words(d, regs) implies {
        let k = next(d, ins, Config { regs, state: st.cur, done: false });
        &&& !k.done
        &&& k.state == head.cur
        &&& commits(st, seen(st, regs, ins), k.regs)
    } by {
        lemma_closed(prog, st1, later, d, regs, ins, Term::Jump(head_id));
        let m = seen(st, regs, ins);
        let k = next(d, ins, Config { regs, state: st.cur, done: false });
        assert(seen(st1, regs, ins) == m);
        assert forall|r: RegId| r < st.d.regs.len() implies #[trigger] k.regs[r as int] == so_far(st, m, Binding::Reg(r)) by {
            assert(k.regs[r as int] == so_far(st1, m, Binding::Reg(r)));
        }
    }
    assert forall|regs: Seq<u64>| #[trigger] words(d, regs) implies {
        let m = seen(head, regs, ins);
        let k = next(d, ins, Config { regs, state: head.cur, done: false });
        &&& !k.done
        &&& k.state == if meant(prog, head, m, cond, Some(width_or(own_width(prog, head, cond), 1))) != 0 {
            inner.cur
        } else {
            later.cur
        }
        &&& commits(head, m, k.regs)
    } by {
        lemma_tested(prog, head, st3, d, regs, ins, cond, c);
        lemma_closed(prog, st5, later, d, regs, ins, term);
        let m = seen(head, regs, ins);
        let k = next(d, ins, Config { regs, state: head.cur, done: false });
        assert(seen(st5, regs, ins) == m);
        assert forall|r: RegId| r < head.d.regs.len() implies #[trigger] k.regs[r as int] == so_far(
            head,
            m,
            Binding::Reg(r),
        ) by {
            assert(k.regs[r as int] == so_far(st5, m, Binding::Reg(r)));
        }
    }
    assert(block_lowered(prog, body, inner, later, head.cur));
    assert(loops(prog, st, cond, body, later, d, ins, head, inner));
}

/// A condition without calls is lowered in one place.
proof fn lemma_condition_same_place(prog: ProgramTree, st: Low, cond: ExprTree)
    requires
        prog_ok(prog),
        sound(prog, st),
        st.roomy(),
        expr_ok(cond),
        !splits(cond),
    ensures
        lower_cond(prog, st, cond) matches Ok(r) ==> grew(st, r.0),
{
    let m = Moment { regs: Seq::new(st.d.regs.len(), |r: int| 0u64), ins: seq![] };
    assert(regs_fit(signal_widths(st.d.regs), m.regs)) by {
        assert forall|r: int| 0 <= r < st.d.regs.len() implies crate::bits::fits(
            #[trigger] m.regs[r],
            signal_widths(st.d.regs)[r],
        ) by {
            crate::bits::lemma_mask_bit(0, signal_widths(st.d.regs)[r], 0);
            lemma_zero_fits(signal_widths(st.d.regs)[r]);
        }
    }
    lemma_condition_kept(prog, st, m, cond);
}

proof fn lemma_loop_later(head: Low, st3: Low, inner: Low, st7: Low, later: Low, d: &Design)
    requires
        inner.d.graph == st3.d.graph,
        inner.d.regs == st3.d.regs,
        follows_on(inner, st7),
        later.d.graph == st7.d.graph,
        later.d.regs == st7.d.regs,
        ends_in(later, d),
    ensures
        st3.d.graph.prefix_of(later.d.graph),
        st3.d.regs.is_prefix_of(later.d.regs),
        carries(st3, d),
{
    lemma_carries(st3, later, d);
}

// --- returns -----------------------------------------------------------------------------------------------

/// A `return` ends the call: in one cycle the register for the result takes what the value
/// meant, at its width, all other variables are committed, and the machine goes on behind
/// the call.
pub proof fn lemma_return_ends(
    prog: ProgramTree,
    st: Low,
    e: ExprTree,
    span: crate::lexer::Span,
    d: &Design,
    regs: Seq<u64>,
    ins: Seq<u64>,
)
    requires
        prog_ok(prog),
        sound(prog, st),
        st.roomy(),
        expr_ok(e),
        !splits(e),
        st.rets.len() > 0,
        st.rets.last().slot is Some,
        lower_stmt(prog, st, StmtTree::Return { value: Some(e), span }) matches Ok(r) && ends_in(r.0, d),
        words(d, regs),
    ensures
        ({
            let target = st.rets.last();
            let slot = target.slot->0;
            let m = seen(st, regs, ins);
            let c = next(d, ins, Config { regs, state: st.cur, done: false });
            &&& !c.done
            &&& c.state == target.block
            &&& c.regs[slot as int] == meant(prog, st, m, e, Some(st.d.regs[slot as int].width))
            &&& forall|r: RegId|
                r < st.d.regs.len() && r != slot ==> #[trigger] c.regs[r as int] == so_far(st, m, Binding::Reg(r))
        }),
{
    let later = lower_stmt(prog, st, StmtTree::Return { value: Some(e), span })->Ok_0.0;
    let target = st.rets.last();
    let slot = target.slot->0;
    let w = st.d.regs[slot as int].width;
    assert(st.rets[st.rets.len() - 1] == target);
    assert(width_ok(st.d.regs[slot as int].width));
    let (st1, v) = lower_expr(prog, st, e, Some(w))->Ok_0;
    lemma_expr(prog, st, e, Some(w));
    let m0 = Moment { regs: Seq::new(st.d.regs.len(), |r: int| 0u64), ins: seq![] };
    assert(regs_fit(signal_widths(st.d.regs), m0.regs)) by {
        assert forall|r: int| 0 <= r < st.d.regs.len() implies crate::bits::fits(
            #[trigger] m0.regs[r],
            signal_widths(st.d.regs)[r],
        ) by {
            lemma_zero_fits(signal_widths(st.d.regs)[r]);
        }
    }
    lemma_expression_kept_behind(prog, st, st, m0, e, Some(w));
    lemma_write(prog, st1, slot, v);
    let st2 = st1.write(slot, v);
    assert(later.d.blocks[st.cur as int] == st2.close(Term::Jump(target.block)).d.blocks[st.cur as int]);
    lemma_carries(st2, later, d);
    lemma_carries(st, later, d);
    lemma_seen_fits(prog, st, d, regs, ins);
    let m = seen(st, regs, ins);
    lemma_expression_kept_behind(prog, st, st, m, e, Some(w));
    lemma_closed(prog, st2, later, d, regs, ins, Term::Jump(target.block));
    let c = next(d, ins, Config { regs, state: st.cur, done: false });
    assert(seen(st2, regs, ins) == m);
    assert(c.regs[slot as int] == so_far(st2, m, Binding::Reg(slot)));
    assert forall|r: RegId| r < st.d.regs.len() && r != slot implies #[trigger] c.regs[r as int] == so_far(
        st,
        m,
        Binding::Reg(r),
    ) by {
        assert(c.regs[r as int] == so_far(st2, m, Binding::Reg(r)));
        if st.env.contains_key(r) {
            assert(write_ok(st.d, r, st.env[r]));
            lemma_value_kept(st.d.graph, st2.d.graph, m.regs, m.ins, st.env[r]);
        }
    }
}

proof fn lemma_zero_fits(w: u32)
    requires
        width_ok(w),
    ensures
        crate::bits::fits(0, w),
{
    if w < 64 {
        let m = ((1u64 << (w as u64)) - 1) as u64;
        assert(0u64 & m == 0u64) by (bit_vector);
    }
}

// --- dropping blocks -----------------------------------------------------------------------------------------

proof fn lemma_same_commit(x: &Design, y: &Design, regs: Seq<u64>, ins: Seq<u64>, assigns: Seq<(RegId, NodeId)>)
    requires
        x.graph() == y.graph(),
        x.regs@.len() == y.regs@.len(),
        forall|r: int| 0 <= r < x.regs@.len() ==> (#[trigger] x.regs@[r]).width == y.regs@[r].width,
        forall|k: int| 0 <= k < assigns.len() ==> (#[trigger] assigns[k]).0 < x.regs@.len(),
    ensures
        commit(x, regs, ins, assigns) == commit(y, regs, ins, assigns),
    decreases assigns.len(),
{
    if assigns.len() > 0 {
        let rest = assigns.drop_last();
        assert forall|k: int| 0 <= k < rest.len() implies (#[trigger] rest[k]).0 < x.regs@.len() by {
            assert(assigns[k].0 < x.regs@.len());
        }
        lemma_same_commit(x, y, regs, ins, rest);
        assert(assigns[assigns.len() - 1].0 < x.regs@.len());
        assert(x.regs@[assigns.last().0 as int].width == y.regs@[assigns.last().0 as int].width);
    }
}

/// A block that can be reached is kept, under its rank.
proof fn lemma_ranked(blocks: Seq<BlockTree>, from: int, b: int, n: nat)
    requires
        0 <= b < n <= blocks.len(),
        blocks.len() <= u32::MAX,
        reachable(blocks, from, b),
    ensures
        rank(blocks, from, b) < reached(blocks, from, n).len(),
        reached(blocks, from, n)[rank(blocks, from, b) as int] == b,
    decreases n,
{
    lemma_reached(blocks, from, n);
    lemma_reached(blocks, from, b as nat);
    if b < n - 1 {
        lemma_ranked(blocks, from, b, (n - 1) as nat);
    }
}

/// Dropping the blocks that cannot be reached changes nothing that a machine does: from the
/// same registers, in step with each other, the two machines hold the same registers and halt
/// together, and the block that one is in is the other's under its new number.
pub proof fn lemma_pruning_keeps(x: &Design, y: &Design, regs: Seq<u64>, ins: Seq<u64>, n: nat)
    requires
        design_ok(x.tree()),
        x.entry < x.blocks@.len() <= u32::MAX,
        y.tree() == pruned(x.tree()),
    ensures
        ({
            let a = run(x, ins, Config { regs, state: x.entry, done: false }, n);
            let b = run(y, ins, Config { regs, state: y.entry, done: false }, n);
            &&& b.regs == a.regs
            &&& b.done == a.done
            &&& a.state < x.blocks@.len()
            &&& reachable(x.tree().blocks, x.entry as int, a.state as int)
            &&& b.state == rank(x.tree().blocks, x.entry as int, a.state as int)
        }),
    decreases n,
{
    let blocks = x.tree().blocks;
    let from = x.entry as int;
    if n == 0 {
        assert(is_path(blocks, from, from, seq![from]));
        assert(y.entry == y.tree().entry);
    } else {
        lemma_pruning_keeps(x, y, regs, ins, (n - 1) as nat);
        let a = run(x, ins, Config { regs, state: x.entry, done: false }, (n - 1) as nat);
        let b = run(y, ins, Config { regs, state: y.entry, done: false }, (n - 1) as nat);
        let s = a.state as int;
        if !a.done {
            lemma_ranked(blocks, from, s, blocks.len());
            let k = rank(blocks, from, s) as int;
            let p = pruned(x.tree());
            assert(p.blocks[k].assigns == blocks[s].assigns);
            assert(y.tree().blocks.len() == y.blocks@.len() == p.blocks.len());
            assert(y.tree().blocks[k] == block_tree(y.blocks@[k]));
            assert(blocks[s] == block_tree(x.blocks@[s]));
            assert(y.blocks@[k].assigns@ == x.blocks@[s].assigns@);
            assert(y.blocks@[k].term == retarget(blocks, from, x.blocks@[s].term));
            assert forall|r: int| 0 <= r < x.regs@.len() implies (#[trigger] x.regs@[r]).width == y.regs@[r].width by {
                assert(x.tree().regs[r] == y.tree().regs[r]);
            }
            assert(x.regs@.len() == x.tree().regs.len() && y.regs@.len() == y.tree().regs.len());
            assert(block_ok(x.tree(), blocks[s]));
            assert forall|j: int| 0 <= j < x.blocks@[s].assigns@.len() implies (#[trigger] x.blocks@[s].assigns@[j]).0
                < x.regs@.len() by {
                assert(write_ok(x.tree(), blocks[s].assigns[j].0, blocks[s].assigns[j].1));
            }
            lemma_same_commit(x, y, a.regs, ins, x.blocks@[s].assigns@);
            match x.blocks@[s].term {
                Term::Jump(t) => {
                    lemma_reach_step(blocks, from, s, t as int);
                },
                Term::Branch { cond, then_b, else_b } => {
                    lemma_reach_step(blocks, from, s, then_b as int);
                    lemma_reach_step(blocks, from, s, else_b as int);
                },
                Term::Halt => {},
            }
        }
    }
}

/// `n` clock cycles, the last one last.
pub open spec fn run(d: &Design, ins: Seq<u64>, c: Config, n: nat) -> Config
    decreases n,
{
    if n == 0 {
        c
    } else {
        next(d, ins, run(d, ins, c, (n - 1) as nat))
    }
}

// --- ports -----------------------------------------------------------------------------------------------------

/// How many of the first `n` ports go a way.
pub open spec fn ports_going(ports: Seq<PortTree>, dir: PortDir, n: nat) -> nat
    decreases n,
{
    if n == 0 {
        0
    } else {
        ports_going(ports, dir, (n - 1) as nat) + if ports[n - 1].dir == dir {
            1nat
        } else {
            0
        }
    }
}

/// Port `i` is bound: an input port to the input of the design with its place among the input
/// ports, an output port to a register that the design lists with its place among the output
/// ports; both with its name and its width.
pub open spec fn port_bound(ports: Seq<PortTree>, st: Low, i: int) -> bool {
    let p = ports[i];
    match p.dir {
        PortDir::In => {
            let k = ports_going(ports, PortDir::In, i as nat) as int;
            &&& k < st.d.inputs.len()
            &&& st.d.inputs[k] == (Signal { name: p.name, width: p.ty.width })
            &&& st.lookup(p.name) == Some(Binding::Input(k as u32))
        },
        PortDir::Out => {
            let k = ports_going(ports, PortDir::Out, i as nat) as int;
            &&& k < st.d.outputs.len()
            &&& st.d.outputs[k].0 == p.name
            &&& st.d.outputs[k].1 < st.d.regs.len()
            &&& st.d.regs[st.d.outputs[k].1 as int] == (Signal { name: p.name, width: p.ty.width })
            &&& st.lookup(p.name) == Some(Binding::Reg(st.d.outputs[k].1))
        },
    }
}

/// Every port of a program is bound, and the design has no other inputs and outputs.
pub proof fn lemma_ports_bound(prog: ProgramTree, n: nat)
    requires
        n <= prog.ports.len(),
        lower_ports(prog, n) is Ok,
    ensures
        ({
            let st = lower_ports(prog, n)->Ok_0;
            &&& st.scopes.len() == 1
            &&& st.scopes[0].len() == n
            &&& forall|i: int| 0 <= i < n ==> (#[trigger] st.scopes[0][i]).0 == prog.ports[i].name
            &&& st.d.inputs.len() == ports_going(prog.ports, PortDir::In, n)
            &&& st.d.outputs.len() == ports_going(prog.ports, PortDir::Out, n)
            &&& forall|i: int| 0 <= i < n ==> #[trigger] port_bound(prog.ports, st, i)
        }),
    decreases n,
{
    if n > 0 {
        lemma_ports_bound(prog, (n - 1) as nat);
        let st = lower_ports(prog, (n - 1) as nat)->Ok_0;
        let later = lower_ports(prog, n)->Ok_0;
        let p = prog.ports[n - 1];
        assert(!port_repeats(prog, n - 1));
        let scope = later.scopes[0];
        assert(scope.drop_last() =~= st.scopes[0]);
        reveal_with_fuel(find, 2);
        assert forall|i: int| 0 <= i < n implies (#[trigger] scope[i]).0 == prog.ports[i].name by {
            if i < n - 1 {
                assert(scope[i] == st.scopes[0][i]);
            }
        }
        assert forall|i: int| 0 <= i < n implies #[trigger] port_bound(prog.ports, later, i) by {
            let q = prog.ports[i];
            if i < n - 1 {
                assert(port_bound(prog.ports, st, i));
                assert(prog.ports[i].name != p.name);
                lemma_find_shorter(st.scopes[0], scope, q.name, n - 1);
                assert(later.lookup(q.name) == st.lookup(q.name));
            } else {
                assert(scope[n - 1].0 == q.name);
                assert(find_in(scope, q.name, n as int) == Some(scope[n - 1].1));
            }
        }
    }
}

/// A name that the last entry of a scope does not have is found before it.
proof fn lemma_find_shorter(a: Seq<(Seq<char>, Binding)>, b: Seq<(Seq<char>, Binding)>, name: Seq<char>, n: int)
    requires
        a.len() + 1 == b.len(),
        b.drop_last() == a,
        b.last().0 != name,
        n == a.len(),
    ensures
        find_in(b, name, b.len() as int) == find_in(a, name, a.len() as int),
{
    assert forall|k: int| 0 <= k <= n implies find_in(b, name, k) == #[trigger] find_in(a, name, k) by {
        lemma_find_same(a, b, name, k);
    }
    assert(find_in(b, name, b.len() as int) == find_in(b, name, n));
}

proof fn lemma_find_same(a: Seq<(Seq<char>, Binding)>, b: Seq<(Seq<char>, Binding)>, name: Seq<char>, k: int)
    requires
        a.len() + 1 == b.len(),
        b.drop_last() == a,
        0 <= k <= a.len(),
    ensures
        find_in(b, name, k) == find_in(a, name, k),
    decreases k,
{
    if k > 0 {
        assert(b[k - 1] == b.drop_last()[k - 1]);
        lemma_find_same(a, b, name, k - 1);
    }
}

} // verus!
