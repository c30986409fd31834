//! Lowering keeps a design well typed.
//!
//! Whatever is lowered, every node has the width that its users want, every
//! register is written at its own width and at most once in a cycle, and every
//! jump leads to a block that exists.
use crate::ast::{
    predicate, BinOp, ExprTree, FuncTree, ParamTree, PortTree, ProgramTree, StmtTree, UnOp,
};
use crate::bitblast::{distinct_writes, synthesizable};
use crate::bits::{fits, lemma_small};
use crate::ir::{
    block_tree, node_operands, operands_below, typed_as, BlockTree, Design, DesignTree, Graph, Node,
    NodeId, RegId, Signal, Term,
};
use crate::ir_values::{
    built, lemma_any, lemma_arith, lemma_compare, lemma_compare_not, lemma_constant, lemma_input,
    lemma_logic, lemma_mux, lemma_not, lemma_reg, lemma_resize, lemma_shift, lemma_sub, regs_fit,
};
use crate::lexer::Span;
use crate::lower::{
    add_port, empty_state, enter_main, is_path, lemma_reach_step, lemma_reached, lower_ports,
    pruned, reachable, reached, args_size, arith_node, bind_params, compare_node, depth, either,
    enter_call, expr_size, find, find_in, func_index, infer, later_splits, leave_call, lower_args,
    lower_binary, lower_block, lower_call, lower_cond, lower_expr, lower_pair, lower_raw,
    lower_stmt, lower_stmts, logic_node, pending, result_slot, shift_bits, splits, stmt_size,
    stmts_size, unary_node, unary_width, width_or, Binding, Low, Lowered, ReturnTarget,
};
use crate::machine::{block_runnable, node_runnable};
use vstd::prelude::*;

verus! {

pub open spec fn width_ok(w: u32) -> bool {
    1 <= w <= 64
}

pub open spec fn signal_widths(s: Seq<Signal>) -> Seq<u32> {
    Seq::new(s.len(), |i: int| s[i].width)
}

/// Every width that an expression names is from 1 to 64.
pub open spec fn expr_ok(e: ExprTree) -> bool
    decreases e,
{
    match e {
        ExprTree::Num { .. } => true,
        ExprTree::Ident { .. } => true,
        ExprTree::Unary { operand, .. } => expr_ok(*operand),
        ExprTree::Binary { lhs, rhs, .. } => expr_ok(*lhs) && expr_ok(*rhs),
        ExprTree::Call { args, .. } => forall|i: int|
            0 <= i < args.len() ==> expr_ok(#[trigger] args[i]),
        ExprTree::Cast { operand, ty, .. } => width_ok(ty.width) && expr_ok(*operand),
        ExprTree::Ternary { cond, then_e, else_e, .. } => expr_ok(*cond) && expr_ok(*then_e)
            && expr_ok(*else_e),
    }
}

pub open spec fn stmt_ok(s: StmtTree) -> bool
    decreases s,
{
    match s {
        StmtTree::Var { ty, init, .. } => (ty matches Some(t) ==> width_ok(t.width)) && expr_ok(
            init,
        ),
        StmtTree::Assign { value, .. } => expr_ok(value),
        StmtTree::If { cond, then_b, else_b, .. } => {
            &&& expr_ok(cond)
            &&& forall|i: int| 0 <= i < then_b.len() ==> stmt_ok(#[trigger] then_b[i])
            &&& match else_b {
                Some(b) => forall|i: int| 0 <= i < b.len() ==> stmt_ok(#[trigger] b[i]),
                None => true,
            }
        },
        StmtTree::While { cond, body, .. } => {
            &&& expr_ok(cond)
            &&& forall|i: int| 0 <= i < body.len() ==> stmt_ok(#[trigger] body[i])
        },
        StmtTree::Return { value, .. } => match value {
            Some(e) => expr_ok(e),
            None => true,
        },
        StmtTree::Nested(b) => forall|i: int| 0 <= i < b.len() ==> stmt_ok(#[trigger] b[i]),
    }
}

pub open spec fn stmts_ok(b: Seq<StmtTree>) -> bool {
    forall|i: int| 0 <= i < b.len() ==> stmt_ok(#[trigger] b[i])
}

pub open spec fn func_ok(f: FuncTree) -> bool {
    &&& f.ret matches Some(t) ==> width_ok(t.width)
    &&& forall|i: int| 0 <= i < f.params.len() ==> width_ok((#[trigger] f.params[i]).ty.width)
    &&& stmts_ok(f.body)
}

/// Every width that a program names is from 1 to 64.
pub open spec fn prog_ok(prog: ProgramTree) -> bool {
    &&& forall|i: int| 0 <= i < prog.ports.len() ==> width_ok((#[trigger] prog.ports[i]).ty.width)
    &&& forall|i: int| 0 <= i < prog.funcs.len() ==> func_ok(#[trigger] prog.funcs[i])
}

pub open spec fn bound_ok(st: Low, b: Binding) -> bool {
    match b {
        Binding::Reg(r) => r < st.d.regs.len(),
        Binding::Input(i) => i < st.d.inputs.len(),
    }
}

pub open spec fn scopes_ok(st: Low) -> bool {
    forall|i: int, k: int|
        0 <= i < st.scopes.len() && 0 <= k < st.scopes[i].len() ==> bound_ok(
            st,
            (#[trigger] st.scopes[i][k]).1,
        )
}

pub open spec fn block_ok(d: DesignTree, b: BlockTree) -> bool {
    &&& forall|k: int|
        0 <= k < b.assigns.len() ==> write_ok(d, (#[trigger] b.assigns[k]).0, b.assigns[k].1)
    &&& forall|i: int, j: int|
        0 <= i < j < b.assigns.len() ==> (#[trigger] b.assigns[i]).0 < (#[trigger] b.assigns[j]).0
    &&& match b.term {
        Term::Jump(t) => t < d.blocks.len(),
        Term::Branch { cond, then_b, else_b } => cond < d.graph.len() && d.graph.width(cond) == 1
            && then_b < d.blocks.len() && else_b < d.blocks.len(),
        Term::Halt => true,
    }
}

/// Node `n` may be written to register `r`.
pub open spec fn write_ok(d: DesignTree, r: RegId, n: NodeId) -> bool {
    r < d.regs.len() && n < d.graph.len() && d.graph.width(n) == d.regs[r as int].width
}

/// A design that holds together.
pub open spec fn design_ok(d: DesignTree) -> bool {
    &&& d.graph.typed(signal_widths(d.regs), signal_widths(d.inputs))
    &&& forall|i: int| 0 <= i < d.regs.len() ==> width_ok((#[trigger] d.regs[i]).width)
    &&& forall|i: int| 0 <= i < d.inputs.len() ==> width_ok((#[trigger] d.inputs[i]).width)
    &&& forall|i: int| 0 <= i < d.blocks.len() ==> block_ok(d, #[trigger] d.blocks[i])
    &&& forall|i: int| 0 <= i < d.outputs.len() ==> (#[trigger] d.outputs[i]).1 < d.regs.len()
}

/// The functions being inlined are functions of the program, each once.
pub open spec fn stack_ok(prog: ProgramTree, stack: Seq<Seq<char>>) -> bool {
    &&& stack.no_duplicates()
    &&& forall|i: int|
        0 <= i < stack.len() ==> func_index(prog, #[trigger] stack[i], 0) is Some
}

/// A state that lowering can be in, leaving aside how much room there is.
pub open spec fn sound(prog: ProgramTree, st: Low) -> bool {
    &&& design_ok(st.d)
    &&& st.scopes.len() >= 1
    &&& scopes_ok(st)
    &&& forall|r: RegId| #[trigger] st.env.contains_key(r) ==> write_ok(st.d, r, st.env[r])
    &&& st.cur < st.d.blocks.len()
    &&& forall|i: int|
        0 <= i < st.rets.len() ==> (#[trigger] st.rets[i]).block < st.d.blocks.len() && (
        st.rets[i].slot matches Some(r) ==> r < st.d.regs.len())
    &&& stack_ok(prog, st.stack)
    &&& st.temps <= st.d.regs.len()
}

/// Some room is left.
pub open spec fn near(st: Low) -> bool {
    &&& st.d.graph.len() + 16 <= u32::MAX
    &&& st.d.regs.len() + 16 <= u32::MAX
    &&& st.d.inputs.len() + 16 <= u32::MAX
    &&& st.d.blocks.len() + 16 <= u32::MAX
}

/// `later` grew out of `st`: nodes, registers and blocks keep their numbers, and
/// the surroundings are the same.
pub open spec fn follows(st: Low, later: Low) -> bool {
    &&& st.d.graph.prefix_of(later.d.graph)
    &&& st.d.regs.is_prefix_of(later.d.regs)
    &&& later.d.inputs == st.d.inputs
    &&& later.d.outputs == st.d.outputs
    &&& later.d.entry == st.d.entry
    &&& st.d.blocks.len() <= later.d.blocks.len()
    &&& later.stack == st.stack
    &&& later.rets == st.rets
    &&& later.scopes.len() == st.scopes.len()
    &&& later.scopes.drop_last() == st.scopes.drop_last()
}

/// `later` grew out of `st`, and no block but the current one and new ones were touched.
pub open spec fn follows_on(st: Low, later: Low) -> bool {
    &&& follows(st, later)
    &&& later.cur == st.cur || later.cur >= st.d.blocks.len()
    &&& forall|b: int|
        0 <= b < st.d.blocks.len() && b != st.cur ==> #[trigger] later.d.blocks[b] == st.d.blocks[b]
}

pub proof fn lemma_follows_refl(st: Low)
    requires
        st.d.graph.nodes.len() == st.d.graph.widths.len(),
    ensures
        follows_on(st, st),
{
}

pub proof fn lemma_follows_trans(a: Low, b: Low, c: Low)
    requires
        follows(a, b),
        follows(b, c),
    ensures
        follows(a, c),
        follows_on(a, b) && follows_on(b, c) ==> follows_on(a, c),
{
    assert forall|i: int| 0 <= i < a.d.graph.nodes.len() implies #[trigger] c.d.graph.nodes[i]
        == a.d.graph.nodes[i] && c.d.graph.widths[i] == a.d.graph.widths[i] by {
        assert(b.d.graph.nodes[i] == a.d.graph.nodes[i]);
        assert(b.d.graph.widths[i] == a.d.graph.widths[i]);
    }
    assert forall|i: int| 0 <= i < a.d.graph.widths.len() implies #[trigger] c.d.graph.widths[i]
        == a.d.graph.widths[i] by {
        assert(b.d.graph.widths[i] == a.d.graph.widths[i]);
    }
    assert forall|i: int| 0 <= i < a.d.regs.len() implies a.d.regs[i] == c.d.regs[i] by {
        assert(a.d.regs[i] == b.d.regs[i]);
    }
}

// --- bindings ------------------------------------------------------------

proof fn lemma_find_in(st: Low, i: int, name: Seq<char>, n: int)
    requires
        scopes_ok(st),
        0 <= i < st.scopes.len(),
        0 <= n <= st.scopes[i].len(),
    ensures
        find_in(st.scopes[i], name, n) matches Some(b) ==> bound_ok(st, b),
    decreases n,
{
    if n > 0 {
        assert(bound_ok(st, st.scopes[i][n - 1].1));
        lemma_find_in(st, i, name, n - 1);
    }
}

proof fn lemma_find(st: Low, name: Seq<char>, n: int)
    requires
        scopes_ok(st),
        0 <= n <= st.scopes.len(),
    ensures
        find(st.scopes, name, n) matches Some(b) ==> bound_ok(st, b),
    decreases n,
{
    if n > 0 {
        lemma_find_in(st, n - 1, name, st.scopes[n - 1].len() as int);
        lemma_find(st, name, n - 1);
    }
}

pub proof fn lemma_lookup(prog: ProgramTree, st: Low, name: Seq<char>)
    requires
        sound(prog, st),
    ensures
        st.lookup(name) matches Some(b) ==> bound_ok(st, b) && width_ok(st.width_of(b)),
{
    lemma_find(st, name, st.scopes.len() as int);
}

pub proof fn lemma_func_index(prog: ProgramTree, name: Seq<char>, i: int)
    requires
        0 <= i,
    ensures
        match func_index(prog, name, i) {
            Some(k) => i <= k < prog.funcs.len() && prog.funcs[k].name == name && forall|j: int|
                i <= j < k ==> (#[trigger] prog.funcs[j]).name != name,
            None => forall|j: int|
                i <= j < prog.funcs.len() ==> (#[trigger] prog.funcs[j]).name != name,
        },
    decreases prog.funcs.len() - i,
{
    if i < prog.funcs.len() && prog.funcs[i].name != name {
        lemma_func_index(prog, name, i + 1);
    }
}

pub proof fn lemma_infer(prog: ProgramTree, st: Low, e: ExprTree)
    requires
        sound(prog, st),
        prog_ok(prog),
        expr_ok(e),
    ensures
        infer(prog, st, e) matches Ok(Some(w)) ==> width_ok(w),
    decreases e,
{
    match e {
        ExprTree::Num { .. } => {},
        ExprTree::Ident { name, .. } => {
            lemma_lookup(prog, st, name);
        },
        ExprTree::Unary { operand, .. } => {
            lemma_infer(prog, st, *operand);
        },
        ExprTree::Binary { lhs, rhs, .. } => {
            lemma_infer(prog, st, *lhs);
            lemma_infer(prog, st, *rhs);
        },
        ExprTree::Call { name, .. } => {
            lemma_func_index(prog, name, 0);
            if let Some(k) = func_index(prog, name, 0) {
                assert(func_ok(prog.funcs[k]));
            }
        },
        ExprTree::Cast { .. } => {},
        ExprTree::Ternary { then_e, else_e, .. } => {
            lemma_infer(prog, st, *then_e);
            lemma_infer(prog, st, *else_e);
        },
    }
}

/// Inlining cannot go deeper than there are functions.
pub proof fn lemma_depth(prog: ProgramTree, stack: Seq<Seq<char>>)
    requires
        stack_ok(prog, stack),
    ensures
        stack.len() <= prog.funcs.len(),
{
    let idx = Seq::new(stack.len(), |i: int| func_index(prog, stack[i], 0)->0);
    assert forall|i: int| 0 <= i < idx.len() implies 0 <= #[trigger] idx[i] < prog.funcs.len()
        && prog.funcs[idx[i]].name == stack[i] by {
        lemma_func_index(prog, stack[i], 0);
        assert(func_index(prog, stack[i], 0) is Some);
    }
    assert(idx.no_duplicates()) by {
        assert forall|i: int, j: int| 0 <= i < idx.len() && 0 <= j < idx.len() && i != j implies idx[i]
            != idx[j] by {
            assert(stack[i] != stack[j]);
        }
    }
    let range = vstd::set_lib::set_int_range(0, prog.funcs.len() as int);
    vstd::set_lib::lemma_int_range(0, prog.funcs.len() as int);
    idx.unique_seq_to_set();
    assert forall|x: int| idx.to_set().contains(x) implies range.contains(x) by {
        let i = choose|i: int| 0 <= i < idx.len() && idx[i] == x;
        assert(0 <= idx[i] < prog.funcs.len());
    }
    vstd::set_lib::lemma_len_subset(idx.to_set(), range);
}

// --- single steps --------------------------------------------------------

spec fn zeros(n: nat) -> Seq<u64> {
    Seq::new(n, |i: int| 0u64)
}

proof fn lemma_zeros_fit(rw: Seq<u32>)
    ensures
        regs_fit(rw, zeros(rw.len())),
{
    assert forall|r: int| 0 <= r < rw.len() implies fits(#[trigger] zeros(rw.len())[r], rw[r]) by {
        lemma_small(rw[r]);
    }
}

/// A node was built: everything else stands.
pub proof fn lemma_with(prog: ProgramTree, st: Low, r: (Graph, NodeId), w: u32)
    requires
        sound(prog, st),
        built(st.d.graph, signal_widths(st.d.regs), signal_widths(st.d.inputs), r, w),
    ensures
        sound(prog, st.with(r).0),
        follows_on(st, st.with(r).0),
        st.with(r).0.env == st.env,
        st.with(r).0.scopes == st.scopes,
        st.with(r).0.cur == st.cur,
        st.with(r).1 < st.with(r).0.d.graph.len(),
        st.with(r).0.d.graph.width(st.with(r).1) == w,
{
    let st2 = st.with(r).0;
    let g = st.d.graph;
    assert forall|i: int| 0 <= i < st2.d.blocks.len() implies block_ok(
        st2.d,
        #[trigger] st2.d.blocks[i],
    ) by {
        let b = st.d.blocks[i];
        assert(block_ok(st.d, b));
        assert forall|k: int| 0 <= k < b.assigns.len() implies write_ok(
            st2.d,
            (#[trigger] b.assigns[k]).0,
            b.assigns[k].1,
        ) by {
            assert(write_ok(st.d, b.assigns[k].0, b.assigns[k].1));
            assert(r.0.widths[b.assigns[k].1 as int] == g.widths[b.assigns[k].1 as int]);
        }
        if let Term::Branch { cond, .. } = b.term {
            assert(r.0.widths[cond as int] == g.widths[cond as int]);
        }
    }
    assert forall|q: RegId| #[trigger] st2.env.contains_key(q) implies write_ok(
        st2.d,
        q,
        st2.env[q],
    ) by {
        assert(write_ok(st.d, q, st.env[q]));
        assert(r.0.widths[st.env[q] as int] == g.widths[st.env[q] as int]);
    }
    assert forall|i: int, k: int|
        0 <= i < st2.scopes.len() && 0 <= k < st2.scopes[i].len() implies bound_ok(
        st2,
        (#[trigger] st2.scopes[i][k]).1,
    ) by {
        assert(bound_ok(st, st.scopes[i][k].1));
    }
}

/// One more register: everything else stands.
pub proof fn lemma_add_reg(prog: ProgramTree, st: Low, name: Seq<char>, w: u32)
    requires
        sound(prog, st),
        width_ok(w),
        st.d.regs.len() < u32::MAX,
    ensures
        sound(prog, st.add_reg(name, w).0),
        follows_on(st, st.add_reg(name, w).0),
{
    let st2 = st.add_reg(name, w).0;
    let rw = signal_widths(st.d.regs);
    let rw2 = signal_widths(st2.d.regs);
    let iw = signal_widths(st.d.inputs);
    let g = st.d.graph;
    assert forall|i: int| 0 <= i < g.nodes.len() implies typed_as(
        g,
        rw2,
        iw,
        #[trigger] g.nodes[i],
        g.widths[i],
    ) by {
        assert(typed_as(g, rw, iw, g.nodes[i], g.widths[i]));
        if let Node::Reg(r) = g.nodes[i] {
            assert(rw2[r as int] == rw[r as int]);
        }
    }
    assert forall|i: int| 0 <= i < st2.d.regs.len() implies width_ok(
        (#[trigger] st2.d.regs[i]).width,
    ) by {
        if i < st.d.regs.len() {
            assert(st2.d.regs[i] == st.d.regs[i]);
        }
    }
    assert forall|i: int| 0 <= i < st2.d.blocks.len() implies block_ok(
        st2.d,
        #[trigger] st2.d.blocks[i],
    ) by {
        let b = st.d.blocks[i];
        assert(block_ok(st.d, b));
        assert forall|k: int| 0 <= k < b.assigns.len() implies write_ok(
            st2.d,
            (#[trigger] b.assigns[k]).0,
            b.assigns[k].1,
        ) by {
            assert(write_ok(st.d, b.assigns[k].0, b.assigns[k].1));
        }
    }
    assert forall|q: RegId| #[trigger] st2.env.contains_key(q) implies write_ok(
        st2.d,
        q,
        st2.env[q],
    ) by {
        assert(write_ok(st.d, q, st.env[q]));
    }
    assert forall|i: int, k: int|
        0 <= i < st2.scopes.len() && 0 <= k < st2.scopes[i].len() implies bound_ok(
        st2,
        (#[trigger] st2.scopes[i][k]).1,
    ) by {
        assert(bound_ok(st, st.scopes[i][k].1));
    }
    assert forall|i: int| 0 <= i < st2.d.outputs.len() implies (#[trigger] st2.d.outputs[i]).1
        < st2.d.regs.len() by {
        assert(st.d.outputs[i].1 < st.d.regs.len());
    }
    assert forall|i: int| 0 <= i < st2.rets.len() implies (#[trigger] st2.rets[i]).block
        < st2.d.blocks.len() && (st2.rets[i].slot matches Some(r) ==> r < st2.d.regs.len()) by {
        assert(st.rets[i].block < st.d.blocks.len());
    }
}

pub proof fn lemma_fresh_temp(prog: ProgramTree, st: Low, w: u32)
    requires
        sound(prog, st),
        width_ok(w),
        st.d.regs.len() < u32::MAX,
    ensures
        sound(prog, st.fresh_temp(w).0),
        follows_on(st, st.fresh_temp(w).0),
        st.fresh_temp(w).1 == st.d.regs.len(),
        st.fresh_temp(w).0.d.regs[st.d.regs.len() as int].width == w,
{
    let name = "$t"@ + crate::text::decimal(st.temps + 1);
    lemma_add_reg(prog, st, name, w);
    let a = st.add_reg(name, w).0;
    let b = st.fresh_temp(w).0;
    assert(b == (Low { temps: st.temps + 1, ..a }));
    assert(scopes_ok(b)) by {
        assert forall|i: int, k: int|
            0 <= i < b.scopes.len() && 0 <= k < b.scopes[i].len() implies bound_ok(
            b,
            (#[trigger] b.scopes[i][k]).1,
        ) by {
            assert(bound_ok(a, a.scopes[i][k].1));
        }
    }
}

/// A pending write of the right width.
pub proof fn lemma_write(prog: ProgramTree, st: Low, r: RegId, v: NodeId)
    requires
        sound(prog, st),
        write_ok(st.d, r, v),
    ensures
        sound(prog, st.write(r, v)),
        follows_on(st, st.write(r, v)),
{
    let st2 = st.write(r, v);
    assert(scopes_ok(st2)) by {
        assert forall|i: int, k: int|
            0 <= i < st2.scopes.len() && 0 <= k < st2.scopes[i].len() implies bound_ok(
            st2,
            (#[trigger] st2.scopes[i][k]).1,
        ) by {
            assert(bound_ok(st, st.scopes[i][k].1));
        }
    }
}

pub proof fn lemma_bind(prog: ProgramTree, st: Low, name: Seq<char>, b: Binding)
    requires
        sound(prog, st),
        bound_ok(st, b),
    ensures
        sound(prog, st.bind(name, b)),
        follows_on(st, st.bind(name, b)),
{
    let st2 = st.bind(name, b);
    let n = st.scopes.len() - 1;
    assert forall|i: int, k: int|
        0 <= i < st2.scopes.len() && 0 <= k < st2.scopes[i].len() implies bound_ok(
        st2,
        (#[trigger] st2.scopes[i][k]).1,
    ) by {
        if i < n {
            assert(st2.scopes[i] == st.scopes[i]);
            assert(bound_ok(st, st.scopes[i][k].1));
        } else if k < st.scopes[n].len() {
            assert(st2.scopes[i][k] == st.scopes[n][k]);
            assert(bound_ok(st, st.scopes[n][k].1));
        }
    }
    assert(st2.scopes.drop_last() =~= st.scopes.drop_last());
}

/// The surroundings of a state do not matter for what is in the design.
pub proof fn lemma_scope(prog: ProgramTree, st: Low, scope: Seq<(Seq<char>, Binding)>)
    requires
        sound(prog, st),
        forall|k: int| 0 <= k < scope.len() ==> bound_ok(st, (#[trigger] scope[k]).1),
    ensures
        sound(prog, st.push_scope(scope)),
{
    let st2 = st.push_scope(scope);
    assert forall|i: int, k: int|
        0 <= i < st2.scopes.len() && 0 <= k < st2.scopes[i].len() implies bound_ok(
        st2,
        (#[trigger] st2.scopes[i][k]).1,
    ) by {
        if i < st.scopes.len() {
            assert(st2.scopes[i] == st.scopes[i]);
            assert(bound_ok(st, st.scopes[i][k].1));
        } else {
            assert(st2.scopes[i] == scope);
        }
    }
}

pub proof fn lemma_pop_scope(prog: ProgramTree, st: Low)
    requires
        sound(prog, st),
        st.scopes.len() >= 2,
    ensures
        sound(prog, st.pop_scope()),
{
    let st2 = st.pop_scope();
    assert forall|i: int, k: int|
        0 <= i < st2.scopes.len() && 0 <= k < st2.scopes[i].len() implies bound_ok(
        st2,
        (#[trigger] st2.scopes[i][k]).1,
    ) by {
        assert(st2.scopes[i] == st.scopes[i]);
        assert(bound_ok(st, st.scopes[i][k].1));
    }
}

proof fn lemma_pending(st: Low, n: nat)
    requires
        forall|r: RegId| #[trigger] st.env.contains_key(r) ==> write_ok(st.d, r, st.env[r]),
        n <= u32::MAX,
    ensures
        ({
            let p = pending(st.env, st.d.graph, n);
            &&& forall|k: int|
                0 <= k < p.len() ==> write_ok(st.d, (#[trigger] p[k]).0, p[k].1) && p[k].0 < n
            &&& forall|i: int, j: int|
                0 <= i < j < p.len() ==> (#[trigger] p[i]).0 < (#[trigger] p[j]).0
        }),
    decreases n,
{
    if n > 0 {
        lemma_pending(st, (n - 1) as nat);
        let before = pending(st.env, st.d.graph, (n - 1) as nat);
        let p = pending(st.env, st.d.graph, n);
        assert forall|k: int| 0 <= k < p.len() implies write_ok(
            st.d,
            (#[trigger] p[k]).0,
            p[k].1,
        ) && p[k].0 < n by {
            if k < before.len() {
                assert(p[k] == before[k]);
            }
        }
        assert forall|i: int, j: int| 0 <= i < j < p.len() implies (#[trigger] p[i]).0 < (
        #[trigger] p[j]).0 by {
            assert(p[i] == before[i]);
            if j < before.len() {
                assert(p[j] == before[j]);
            }
        }
    }
}

/// What may end a block.
pub open spec fn term_ok(d: DesignTree, term: Term) -> bool {
    match term {
        Term::Jump(t) => t < d.blocks.len(),
        Term::Branch { cond, then_b, else_b } => cond < d.graph.len() && d.graph.width(cond) == 1
            && then_b < d.blocks.len() && else_b < d.blocks.len(),
        Term::Halt => true,
    }
}

pub proof fn lemma_close(prog: ProgramTree, st: Low, term: Term)
    requires
        sound(prog, st),
        term_ok(st.d, term),
        st.d.regs.len() <= u32::MAX,
    ensures
        sound(prog, st.close(term)),
        follows_on(st, st.close(term)),
{
    let st2 = st.close(term);
    lemma_pending(st, st.d.regs.len());
    let p = pending(st.env, st.d.graph, st.d.regs.len());
    assert forall|i: int| 0 <= i < st2.d.blocks.len() implies block_ok(
        st2.d,
        #[trigger] st2.d.blocks[i],
    ) by {
        if i != st.cur {
            let b = st.d.blocks[i];
            assert(block_ok(st.d, b));
            assert forall|k: int| 0 <= k < b.assigns.len() implies write_ok(
                st2.d,
                (#[trigger] b.assigns[k]).0,
                b.assigns[k].1,
            ) by {
                assert(write_ok(st.d, b.assigns[k].0, b.assigns[k].1));
            }
        } else {
            assert forall|k: int| 0 <= k < p.len() implies write_ok(
                st2.d,
                (#[trigger] p[k]).0,
                p[k].1,
            ) by {
                assert(write_ok(st.d, p[k].0, p[k].1));
            }
        }
    }
    assert(scopes_ok(st2)) by {
        assert forall|i: int, k: int|
            0 <= i < st2.scopes.len() && 0 <= k < st2.scopes[i].len() implies bound_ok(
            st2,
            (#[trigger] st2.scopes[i][k]).1,
        ) by {
            assert(bound_ok(st, st.scopes[i][k].1));
        }
    }
}

pub proof fn lemma_add_block(prog: ProgramTree, st: Low, label: Seq<char>)
    requires
        sound(prog, st),
        st.d.blocks.len() < u32::MAX,
    ensures
        sound(prog, st.add_block(label).0),
        follows_on(st, st.add_block(label).0),
        st.add_block(label).1 == st.d.blocks.len(),
        st.add_block(label).0.d.blocks.len() == st.d.blocks.len() + 1,
{
    let st2 = st.add_block(label).0;
    assert forall|i: int| 0 <= i < st2.d.blocks.len() implies block_ok(
        st2.d,
        #[trigger] st2.d.blocks[i],
    ) by {
        if i < st.d.blocks.len() {
            let b = st.d.blocks[i];
            assert(st2.d.blocks[i] == b);
            assert(block_ok(st.d, b));
            assert forall|k: int| 0 <= k < b.assigns.len() implies write_ok(
                st2.d,
                (#[trigger] b.assigns[k]).0,
                b.assigns[k].1,
            ) by {
                assert(write_ok(st.d, b.assigns[k].0, b.assigns[k].1));
            }
        }
    }
    assert(scopes_ok(st2)) by {
        assert forall|i: int, k: int|
            0 <= i < st2.scopes.len() && 0 <= k < st2.scopes[i].len() implies bound_ok(
            st2,
            (#[trigger] st2.scopes[i][k]).1,
        ) by {
            assert(bound_ok(st, st.scopes[i][k].1));
        }
    }
    assert forall|q: RegId| #[trigger] st2.env.contains_key(q) implies write_ok(
        st2.d,
        q,
        st2.env[q],
    ) by {
        assert(write_ok(st.d, q, st.env[q]));
    }
}

pub proof fn lemma_enter(prog: ProgramTree, st: Low, b: u32)
    requires
        sound(prog, st),
        b < st.d.blocks.len(),
    ensures
        sound(prog, st.enter(b)),
        follows(st, st.enter(b)),
{
    let st2 = st.enter(b);
    assert(scopes_ok(st2)) by {
        assert forall|i: int, k: int|
            0 <= i < st2.scopes.len() && 0 <= k < st2.scopes[i].len() implies bound_ok(
            st2,
            (#[trigger] st2.scopes[i][k]).1,
        ) by {
            assert(bound_ok(st, st.scopes[i][k].1));
        }
    }
}

/// Going on in a new block.
pub proof fn lemma_enter_new(from: Low, st: Low, b: u32)
    requires
        follows_on(from, st),
        from.d.blocks.len() <= b < st.d.blocks.len(),
    ensures
        follows_on(from, st.enter(b)),
{
}

/// Reading a register: the pending value, or the register.
pub proof fn lemma_read_reg(prog: ProgramTree, st: Low, r: RegId)
    requires
        sound(prog, st),
        near(st),
        r < st.d.regs.len(),
    ensures
        sound(prog, st.read_reg(r).0),
        follows_on(st, st.read_reg(r).0),
        st.read_reg(r).0.scopes == st.scopes,
        st.read_reg(r).1 < st.read_reg(r).0.d.graph.len(),
        st.read_reg(r).0.d.graph.width(st.read_reg(r).1) == st.d.regs[r as int].width,
        st.read_reg(r).0.d.graph.len() <= st.d.graph.len() + 1,
{
    if st.env.contains_key(r) {
        lemma_follows_refl(st);
        assert(write_ok(st.d, r, st.env[r]));
    } else {
        let rw = signal_widths(st.d.regs);
        let iw = signal_widths(st.d.inputs);
        assert(rw[r as int] == st.d.regs[r as int].width);
        lemma_reg(st.d.graph, rw, iw, zeros(rw.len()), seq![], r);
        lemma_with(
            prog,
            st,
            st.d.graph.intern(Node::Reg(r), st.d.regs[r as int].width),
            st.d.regs[r as int].width,
        );
    }
}

/// Spilling a value.
pub proof fn lemma_spill(prog: ProgramTree, st: Low, v: NodeId)
    requires
        sound(prog, st),
        near(st),
        v < st.d.graph.len(),
    ensures
        sound(prog, st.spill(v).0),
        follows_on(st, st.spill(v).0),
        st.spill(v).0.scopes == st.scopes,
        st.spill(v).1 < st.spill(v).0.d.graph.len(),
        st.spill(v).0.d.graph.width(st.spill(v).1) == st.d.graph.width(v),
        st.spill(v).0.d.graph.len() <= st.d.graph.len() + 1,
        st.spill(v).0.d.regs.len() == st.d.regs.len() + 1,
        st.spill(v).0.d.blocks == st.d.blocks,
{
    let w = st.d.graph.width(v);
    let rw0 = signal_widths(st.d.regs);
    let iw = signal_widths(st.d.inputs);
    assert(typed_as(st.d.graph, rw0, iw, st.d.graph.nodes[v as int], st.d.graph.widths[v as int]));
    lemma_fresh_temp(prog, st, w);
    let (st1, t) = st.fresh_temp(w);
    lemma_write(prog, st1, t, v);
    let st2 = st1.write(t, v);
    lemma_follows_trans(st, st1, st2);
    let rw = signal_widths(st2.d.regs);
    assert(rw[t as int] == w);
    lemma_reg(st2.d.graph, rw, iw, zeros(rw.len()), seq![], t);
    let r = st2.d.graph.intern(Node::Reg(t), st2.d.regs[t as int].width);
    lemma_with(prog, st2, r, w);
    lemma_follows_trans(st, st2, st2.with(r).0);
}

/// Every unary and binary constructor, on operands of the right widths.
proof fn lemma_ops(prog: ProgramTree, st: Low, a: NodeId, b: NodeId)
    requires
        sound(prog, st),
        near(st),
        a < st.d.graph.len(),
        b < st.d.graph.len(),
    ensures
        ({
            let g = st.d.graph;
            let rw = signal_widths(st.d.regs);
            let iw = signal_widths(st.d.inputs);
            let w = g.width(a);
            &&& width_ok(w)
            &&& built(g, rw, iw, g.any(a), 1)
            &&& built(g, rw, iw, g.not(a), w)
            &&& built(g, rw, iw, g.shl(a, b), w)
            &&& built(g, rw, iw, g.shr(a, b), w)
            &&& g.width(b) == w ==> {
                &&& built(g, rw, iw, g.and(a, b), w)
                &&& built(g, rw, iw, g.or(a, b), w)
                &&& built(g, rw, iw, g.xor(a, b), w)
                &&& built(g, rw, iw, g.add(a, b), w)
                &&& built(g, rw, iw, g.mul(a, b), w)
                &&& built(g, rw, iw, g.sub(a, b), w)
                &&& built(g, rw, iw, g.lt(a, b), 1)
                &&& built(g, rw, iw, g.lt(b, a), 1)
                &&& built(g, rw, iw, g.eq(a, b), 1)
                &&& built(g, rw, iw, g.ne(a, b), 1)
                &&& built(g, rw, iw, g.le(a, b), 1)
                &&& built(g, rw, iw, g.ge(a, b), 1)
            }
        }),
{
    let g = st.d.graph;
    let rw = signal_widths(st.d.regs);
    let iw = signal_widths(st.d.inputs);
    let z = zeros(rw.len());
    lemma_zeros_fit(rw);
    assert(typed_as(g, rw, iw, g.nodes[a as int], g.widths[a as int]));
    lemma_any(g, rw, iw, z, seq![], a);
    lemma_not(g, rw, iw, z, seq![], a);
    lemma_shift(g, rw, iw, z, seq![], a, b);
    if g.width(b) == g.width(a) {
        lemma_logic(g, rw, iw, z, seq![], a, b);
        lemma_arith(g, rw, iw, z, seq![], a, b);
        lemma_sub(g, rw, iw, z, seq![], a, b);
        lemma_compare(g, rw, iw, z, seq![], a, b);
        lemma_compare(g, rw, iw, z, seq![], b, a);
        lemma_compare_not(g, rw, iw, z, seq![], a, b);
    }
}

/// How much the constructors add.
pub proof fn lemma_growth(g: Graph, a: NodeId, b: NodeId, c: NodeId, w: u32, v: u64, n: Node)
    ensures
        g.intern(n, w).0.len() <= g.len() + 1,
        g.constant(v, w).0.len() <= g.len() + 1,
        g.any(a).0.len() <= g.len() + 1,
        g.not(a).0.len() <= g.len() + 1,
        g.resize(a, w).0.len() <= g.len() + 1,
        g.mux(a, b, c).0.len() <= g.len() + 1,
        g.and(a, b).0.len() <= g.len() + 1,
        g.or(a, b).0.len() <= g.len() + 1,
        g.xor(a, b).0.len() <= g.len() + 1,
        g.add(a, b).0.len() <= g.len() + 1,
        g.mul(a, b).0.len() <= g.len() + 1,
        g.lt(a, b).0.len() <= g.len() + 1,
        g.lt(b, a).0.len() <= g.len() + 1,
        g.eq(a, b).0.len() <= g.len() + 1,
        g.shl(a, b).0.len() <= g.len() + 1,
        g.shr(a, b).0.len() <= g.len() + 1,
        g.ne(a, b).0.len() <= g.len() + 2,
        g.le(a, b).0.len() <= g.len() + 2,
        g.ge(a, b).0.len() <= g.len() + 2,
        g.sub(a, b).0.len() <= g.len() + 4,
{
}

// --- expressions ---------------------------------------------------------

/// What lowering an expression owes.
pub open spec fn expr_result(prog: ProgramTree, st: Low, r: Lowered<NodeId>, w: Option<u32>) -> bool {
    match r {
        Ok((st2, v)) => {
            &&& sound(prog, st2)
            &&& follows_on(st, st2)
            &&& st2.scopes == st.scopes
            &&& v < st2.d.graph.len()
            &&& match w {
                Some(x) => st2.d.graph.width(v) == x,
                None => true,
            }
        },
        Err(_) => true,
    }
}

pub open spec fn roomy_result<T>(r: Lowered<T>) -> bool {
    r matches Ok(x) ==> x.0.roomy()
}

pub open spec fn near_result<T>(r: Lowered<T>) -> bool {
    r matches Ok(x) ==> near(x.0)
}

/// Lowering an expression keeps the state sound, and gives a node of the width
/// that was asked for.
pub proof fn lemma_expr(prog: ProgramTree, st: Low, e: ExprTree, expected: Option<u32>)
    requires
        prog_ok(prog),
        sound(prog, st),
        st.roomy(),
        expr_ok(e),
        expected matches Some(w) ==> width_ok(w),
    ensures
        expr_result(prog, st, lower_expr(prog, st, e, expected), expected),
        roomy_result(lower_expr(prog, st, e, expected)),
    decreases depth(prog, st), expr_size(e), 3int,
{
    lemma_raw(prog, st, e, expected);
    if let Ok((st1, v)) = lower_raw(prog, st, e, expected) {
        if let Some(w) = expected {
            let g = st1.d.graph;
            let rw = signal_widths(st1.d.regs);
            let iw = signal_widths(st1.d.inputs);
            lemma_zeros_fit(rw);
            lemma_resize(g, rw, iw, zeros(rw.len()), seq![], v, w);
            lemma_with(prog, st1, g.resize(v, w), w);
            lemma_follows_trans(st, st1, st1.with(g.resize(v, w)).0);
        }
    }
}

pub proof fn lemma_cond(prog: ProgramTree, st: Low, e: ExprTree)
    requires
        prog_ok(prog),
        sound(prog, st),
        st.roomy(),
        expr_ok(e),
    ensures
        expr_result(prog, st, lower_cond(prog, st, e), Some(1u32)),
        roomy_result(lower_cond(prog, st, e)),
    decreases depth(prog, st), expr_size(e), 4int,
{
    lemma_infer(prog, st, e);
    if let Ok(w) = infer(prog, st, e) {
        lemma_expr(prog, st, e, Some(width_or(w, 1)));
        if let Ok((st1, v)) = lower_expr(prog, st, e, Some(width_or(w, 1))) {
            lemma_ops(prog, st1, v, v);
            lemma_with(prog, st1, st1.d.graph.any(v), 1);
            lemma_follows_trans(st, st1, st1.with(st1.d.graph.any(v)).0);
        }
    }
}

/// Both operands, at their widths.
pub open spec fn pair_result(
    prog: ProgramTree,
    st: Low,
    r: Lowered<(NodeId, NodeId)>,
    lw: u32,
    rw: u32,
) -> bool {
    match r {
        Ok((st2, (a, b))) => {
            &&& sound(prog, st2)
            &&& follows_on(st, st2)
            &&& st2.scopes == st.scopes
            &&& a < st2.d.graph.len()
            &&& b < st2.d.graph.len()
            &&& st2.d.graph.width(a) == lw
            &&& st2.d.graph.width(b) == rw
        },
        Err(_) => true,
    }
}

pub proof fn lemma_pair(
    prog: ProgramTree,
    st: Low,
    lhs: ExprTree,
    rhs: ExprTree,
    lw: u32,
    rw: u32,
)
    requires
        prog_ok(prog),
        sound(prog, st),
        st.roomy(),
        expr_ok(lhs),
        expr_ok(rhs),
        width_ok(lw),
        width_ok(rw),
    ensures
        pair_result(prog, st, lower_pair(prog, st, lhs, rhs, lw, rw), lw, rw),
        roomy_result(lower_pair(prog, st, lhs, rhs, lw, rw)),
    decreases depth(prog, st), expr_size(lhs) + expr_size(rhs), 4int,
{
    lemma_sizes(lhs);
    lemma_sizes(rhs);
    lemma_expr(prog, st, lhs, Some(lw));
    if let Ok((st1, l)) = lower_expr(prog, st, lhs, Some(lw)) {
        let (st2, l2) = if splits(rhs) {
            st1.spill(l)
        } else {
            (st1, l)
        };
        if splits(rhs) {
            lemma_spill(prog, st1, l);
        } else {
            lemma_follows_refl(st1);
        }
        lemma_follows_trans(st, st1, st2);
        if st2.roomy() {
            lemma_expr(prog, st2, rhs, Some(rw));
            if let Ok((st3, r)) = lower_expr(prog, st2, rhs, Some(rw)) {
                lemma_follows_trans(st, st2, st3);
                assert(st3.d.graph.widths[l2 as int] == st2.d.graph.widths[l2 as int]);
            }
        }
    }
}

pub proof fn lemma_sizes(e: ExprTree)
    ensures
        expr_size(e) >= 1,
{
}

pub proof fn lemma_raw(prog: ProgramTree, st: Low, e: ExprTree, expected: Option<u32>)
    requires
        prog_ok(prog),
        sound(prog, st),
        st.roomy(),
        expr_ok(e),
        expected matches Some(w) ==> width_ok(w),
    ensures
        expr_result(prog, st, lower_raw(prog, st, e, expected), None),
        near_result(lower_raw(prog, st, e, expected)),
    decreases depth(prog, st), expr_size(e), 2int,
{
    let rw = signal_widths(st.d.regs);
    let iw = signal_widths(st.d.inputs);
    lemma_zeros_fit(rw);
    match e {
        ExprTree::Num { value, .. } => {
            if let Some(w) = expected {
                lemma_constant(st.d.graph, rw, iw, zeros(rw.len()), seq![], value, w);
                lemma_with(prog, st, st.d.graph.constant(value, w), w);
            }
        },
        ExprTree::Ident { name, .. } => {
            lemma_lookup(prog, st, name);
            match st.lookup(name) {
                Some(Binding::Reg(r)) => {
                    lemma_read_reg(prog, st, r);
                },
                Some(Binding::Input(i)) => {
                    assert(iw[i as int] == st.d.inputs[i as int].width);
                    lemma_input(st.d.graph, rw, iw, zeros(rw.len()), seq![], i);
                    lemma_with(
                        prog,
                        st,
                        st.d.graph.intern(Node::Input(i), st.d.inputs[i as int].width),
                        st.d.inputs[i as int].width,
                    );
                },
                None => {},
            }
        },
        ExprTree::Cast { operand, ty, .. } => {
            lemma_infer(prog, st, *operand);
            if let Ok(inner) = infer(prog, st, *operand) {
                let w = width_or(inner, ty.width);
                lemma_expr(prog, st, *operand, Some(w));
                if let Ok((st1, v)) = lower_expr(prog, st, *operand, Some(w)) {
                    let g = st1.d.graph;
                    let rw1 = signal_widths(st1.d.regs);
                    let iw1 = signal_widths(st1.d.inputs);
                    lemma_zeros_fit(rw1);
                    lemma_resize(g, rw1, iw1, zeros(rw1.len()), seq![], v, ty.width);
                    lemma_with(prog, st1, g.resize(v, ty.width), ty.width);
                    lemma_follows_trans(st, st1, st1.with(g.resize(v, ty.width)).0);
                }
            }
        },
        ExprTree::Unary { op, operand, .. } => {
            lemma_infer(prog, st, *operand);
            if let Ok(inner) = infer(prog, st, *operand) {
                if let Some(w) = unary_width(op, expected, inner) {
                    lemma_expr(prog, st, *operand, Some(w));
                    if let Ok((st1, v)) = lower_expr(prog, st, *operand, Some(w)) {
                        lemma_unary_node(prog, st, st1, op, v, w);
                    }
                }
            }
        },
        ExprTree::Binary { op, lhs, rhs, span } => {
            lemma_binary(prog, st, op, *lhs, *rhs, expected, span);
        },
        ExprTree::Ternary { cond, then_e, else_e, span } => {
            lemma_infer(prog, st, *then_e);
            lemma_infer(prog, st, *else_e);
            lemma_ternary(prog, st, *cond, *then_e, *else_e, expected);
        },
        ExprTree::Call { name, args, span } => {
            lemma_call(prog, st, name, args, span);
        },
    }
}

/// Building on a roomy state.
proof fn lemma_finish(prog: ProgramTree, st: Low, st1: Low, out: (Graph, NodeId), w: u32)
    requires
        sound(prog, st1),
        follows_on(st, st1),
        st1.roomy(),
        st1.scopes == st.scopes,
        built(st1.d.graph, signal_widths(st1.d.regs), signal_widths(st1.d.inputs), out, w),
        out.0.len() <= st1.d.graph.len() + 5,
    ensures
        expr_result(prog, st, Ok(st1.with(out)), Some(w)),
        near(st1.with(out).0),
{
    lemma_with(prog, st1, out, w);
    lemma_follows_trans(st, st1, st1.with(out).0);
}

/// The node of a unary operator.
pub proof fn lemma_unary_node(prog: ProgramTree, st: Low, st1: Low, op: UnOp, v: NodeId, x: u32)
    requires
        sound(prog, st1),
        follows_on(st, st1),
        st1.roomy(),
        st1.scopes == st.scopes,
        v < st1.d.graph.len(),
        st1.d.graph.width(v) == x,
        width_ok(x),
    ensures
        expr_result(prog, st, Ok(unary_node(st1, op, v, x)), None),
        near(unary_node(st1, op, v, x).0),
{
    reveal(unary_node);
    let g = st1.d.graph;
    lemma_ops(prog, st1, v, v);
    match op {
        UnOp::Not => {
            lemma_with(prog, st1, g.any(v), 1);
            let (st2, nz) = st1.with(g.any(v));
            lemma_ops(prog, st2, nz, nz);
            lemma_with(prog, st2, st2.d.graph.not(nz), 1);
            lemma_follows_trans(st, st1, st2);
            lemma_follows_trans(st, st2, st2.with(st2.d.graph.not(nz)).0);
        },
        UnOp::BitNot => {
            lemma_growth(g, v, v, v, x, 0, Node::Any(v));
            lemma_finish(prog, st, st1, g.not(v), x);
        },
        UnOp::Neg => {
            lemma_negation(prog, st, st1, v, x);
        },
    }
}

proof fn lemma_negation(prog: ProgramTree, st: Low, st1: Low, v: NodeId, x: u32)
    requires
        sound(prog, st1),
        follows_on(st, st1),
        st1.roomy(),
        st1.scopes == st.scopes,
        v < st1.d.graph.len(),
        st1.d.graph.width(v) == x,
        width_ok(x),
    ensures
        expr_result(prog, st, Ok(unary_node(st1, UnOp::Neg, v, x)), None),
        near(unary_node(st1, UnOp::Neg, v, x).0),
{
    let g = st1.d.graph;
    let rw = signal_widths(st1.d.regs);
    let iw = signal_widths(st1.d.inputs);
    lemma_constant(g, rw, iw, zeros(rw.len()), seq![], 0, x);
    lemma_with(prog, st1, g.constant(0, x), x);
    let c = g.constant(0, x);
    let (st2, z) = st1.with(c);
    lemma_growth(g, v, v, v, x, 0, Node::Any(v));
    assert(st2.d.graph.widths[v as int] == g.widths[v as int]);
    lemma_ops(prog, st2, z, v);
    lemma_growth(st2.d.graph, z, v, v, x, 0, Node::Any(v));
    let out = st2.d.graph.sub(z, v);
    lemma_with(prog, st2, out, x);
    lemma_follows_trans(st, st1, st2);
    lemma_follows_trans(st, st2, st2.with(out).0);
    assert(unary_node(st1, UnOp::Neg, v, x) == st2.with(out)) by {
        reveal(unary_node);
    }
}

/// The node of `&&` or `||`.
pub proof fn lemma_logic_node(
    prog: ProgramTree,
    st: Low,
    st1: Low,
    op: BinOp,
    l: NodeId,
    r: NodeId,
)
    requires
        sound(prog, st1),
        follows_on(st, st1),
        st1.roomy(),
        st1.scopes == st.scopes,
        l < st1.d.graph.len(),
        r < st1.d.graph.len(),
    ensures
        expr_result(prog, st, Ok(logic_node(st1, op, l, r)), None),
        near(logic_node(st1, op, l, r).0),
{
    reveal(logic_node);
    lemma_ops(prog, st1, l, r);
    lemma_with(prog, st1, st1.d.graph.any(l), 1);
    let (st2, la) = st1.with(st1.d.graph.any(l));
    lemma_growth(st1.d.graph, l, r, r, 1, 0, Node::Any(l));
    lemma_ops(prog, st2, r, la);
    lemma_with(prog, st2, st2.d.graph.any(r), 1);
    let (st3, ra) = st2.with(st2.d.graph.any(r));
    lemma_growth(st2.d.graph, r, la, r, 1, 0, Node::Any(l));
    assert(st3.d.graph.widths[la as int] == st2.d.graph.widths[la as int]);
    lemma_ops(prog, st3, la, ra);
    let g3 = st3.d.graph;
    let out = if op is LAnd {
        g3.and(la, ra)
    } else {
        g3.or(la, ra)
    };
    lemma_with(prog, st3, out, 1);
    lemma_follows_trans(st, st1, st2);
    lemma_follows_trans(st, st2, st3);
    lemma_follows_trans(st, st3, st3.with(out).0);
    lemma_growth(g3, la, ra, ra, 1, 0, Node::Any(la));
}

proof fn lemma_compare_node(prog: ProgramTree, st1: Low, op: BinOp, l: NodeId, r: NodeId)
    requires
        sound(prog, st1),
        near(st1),
        l < st1.d.graph.len(),
        r < st1.d.graph.len(),
        st1.d.graph.width(l) == st1.d.graph.width(r),
    ensures
        built(
            st1.d.graph,
            signal_widths(st1.d.regs),
            signal_widths(st1.d.inputs),
            compare_node(st1.d.graph, op, l, r),
            1,
        ),
        compare_node(st1.d.graph, op, l, r).0.len() <= st1.d.graph.len() + 5,
{
    reveal(compare_node);
    lemma_ops(prog, st1, l, r);
    lemma_growth(st1.d.graph, l, r, r, 1, 0, Node::Any(l));
}

proof fn lemma_arith_node(prog: ProgramTree, st1: Low, op: BinOp, l: NodeId, r: NodeId, w: u32)
    requires
        sound(prog, st1),
        near(st1),
        l < st1.d.graph.len(),
        r < st1.d.graph.len(),
        st1.d.graph.width(l) == w,
        st1.d.graph.width(r) == w,
    ensures
        built(
            st1.d.graph,
            signal_widths(st1.d.regs),
            signal_widths(st1.d.inputs),
            arith_node(st1.d.graph, op, l, r),
            w,
        ),
        arith_node(st1.d.graph, op, l, r).0.len() <= st1.d.graph.len() + 5,
{
    reveal(arith_node);
    lemma_ops(prog, st1, l, r);
    lemma_growth(st1.d.graph, l, r, r, 1, 0, Node::Any(l));
}

proof fn lemma_ternary(
    prog: ProgramTree,
    st: Low,
    cond: ExprTree,
    then_e: ExprTree,
    else_e: ExprTree,
    expected: Option<u32>,
)
    requires
        prog_ok(prog),
        sound(prog, st),
        st.roomy(),
        expr_ok(cond),
        expr_ok(then_e),
        expr_ok(else_e),
    ensures
        forall|w: u32| #[trigger]
            width_ok(w) ==> match lower_cond(prog, st, cond) {
                Ok((st1, c)) => {
                    let (st2, c2) = if splits(then_e) || splits(else_e) {
                        st1.spill(c)
                    } else {
                        (st1, c)
                    };
                    st2.roomy() && depth(prog, st2) <= depth(prog, st) ==> match lower_pair(
                        prog,
                        st2,
                        then_e,
                        else_e,
                        w,
                        w,
                    ) {
                        Ok((st3, (t, f))) => {
                            let r = st3.with(st3.d.graph.mux(c2, t, f));
                            expr_result(prog, st, Ok(r), None) && near(r.0)
                        },
                        Err(_) => true,
                    }
                },
                Err(_) => true,
            },
    decreases depth(prog, st), expr_size(cond) + expr_size(then_e) + expr_size(else_e), 5int,
{
    lemma_sizes(cond);
    lemma_sizes(then_e);
    lemma_sizes(else_e);
    lemma_cond(prog, st, cond);
    if let Ok((st1, c)) = lower_cond(prog, st, cond) {
        let (st2, c2) = if splits(then_e) || splits(else_e) {
            st1.spill(c)
        } else {
            (st1, c)
        };
        if splits(then_e) || splits(else_e) {
            lemma_spill(prog, st1, c);
        } else {
            lemma_follows_refl(st1);
        }
        lemma_follows_trans(st, st1, st2);
        if st2.roomy() {
            assert forall|w: u32| #[trigger] width_ok(w) implies match lower_pair(
                prog,
                st2,
                then_e,
                else_e,
                w,
                w,
            ) {
                Ok((st3, (t, f))) => {
                    let r = st3.with(st3.d.graph.mux(c2, t, f));
                    expr_result(prog, st, Ok(r), None) && near(r.0)
                },
                Err(_) => true,
            } by {
                lemma_pair(prog, st2, then_e, else_e, w, w);
                if let Ok((st3, (t, f))) = lower_pair(prog, st2, then_e, else_e, w, w) {
                    let g = st3.d.graph;
                    let rw = signal_widths(st3.d.regs);
                    let iw = signal_widths(st3.d.inputs);
                    lemma_zeros_fit(rw);
                    assert(g.widths[c2 as int] == st2.d.graph.widths[c2 as int]);
                    lemma_mux(g, rw, iw, zeros(rw.len()), seq![], c2, t, f);
                    lemma_with(prog, st3, g.mux(c2, t, f), w);
                    lemma_follows_trans(st, st2, st3);
                    lemma_follows_trans(st, st3, st3.with(g.mux(c2, t, f)).0);
                }
            }
        }
    }
}

pub proof fn lemma_binary(
    prog: ProgramTree,
    st: Low,
    op: BinOp,
    lhs: ExprTree,
    rhs: ExprTree,
    expected: Option<u32>,
    span: Span,
)
    requires
        prog_ok(prog),
        sound(prog, st),
        st.roomy(),
        expr_ok(lhs),
        expr_ok(rhs),
        expected matches Some(w) ==> width_ok(w),
    ensures
        expr_result(prog, st, lower_binary(prog, st, op, lhs, rhs, expected, span), None),
        near_result(lower_binary(prog, st, op, lhs, rhs, expected, span)),
    decreases depth(prog, st), expr_size(lhs) + expr_size(rhs), 5int,
{
    lemma_infer(prog, st, lhs);
    lemma_infer(prog, st, rhs);
    if let Ok(a) = infer(prog, st, lhs) {
        if op is LAnd || op is LOr {
            if let Ok(b) = infer(prog, st, rhs) {
                let lw = width_or(a, 1);
                let rw = width_or(b, 1);
                lemma_pair(prog, st, lhs, rhs, lw, rw);
                if let Ok((st1, (l, r))) = lower_pair(prog, st, lhs, rhs, lw, rw) {
                    lemma_logic_node(prog, st, st1, op, l, r);
                }
            }
        } else if op is Shl || op is Shr {
            if let Some(w) = either(expected, a) {
                if let Ok(b) = infer(prog, st, rhs) {
                    let sw = width_or(b, shift_bits(w));
                    lemma_pair(prog, st, lhs, rhs, w, sw);
                    if let Ok((st1, (l, r))) = lower_pair(prog, st, lhs, rhs, w, sw) {
                        lemma_ops(prog, st1, l, r);
                        let out = if op is Shl {
                            st1.d.graph.shl(l, r)
                        } else {
                            st1.d.graph.shr(l, r)
                        };
                        lemma_growth(st1.d.graph, l, r, r, 1, 0, Node::Any(l));
                        lemma_finish(prog, st, st1, out, w);
                    }
                }
            }
        } else if let Ok(b) = infer(prog, st, rhs) {
            if predicate(op) {
                if let Some(w) = either(a, b) {
                    lemma_pair(prog, st, lhs, rhs, w, w);
                    if let Ok((st1, (l, r))) = lower_pair(prog, st, lhs, rhs, w, w) {
                        lemma_compare_node(prog, st1, op, l, r);
                        lemma_finish(prog, st, st1, compare_node(st1.d.graph, op, l, r), 1);
                    }
                }
            } else {
                if let Some(w) = either(expected, either(a, b)) {
                    lemma_pair(prog, st, lhs, rhs, w, w);
                    if let Ok((st1, (l, r))) = lower_pair(prog, st, lhs, rhs, w, w) {
                        lemma_arith_node(prog, st1, op, l, r, w);
                        lemma_finish(prog, st, st1, arith_node(st1.d.graph, op, l, r), w);
                    }
                }
            }
        }
    }
}

// --- calls ---------------------------------------------------------------

/// The arguments so far, at the widths of their parameters.
pub open spec fn args_result(
    st: Low,
    params: Seq<ParamTree>,
    vals: Seq<NodeId>,
) -> bool {
    forall|k: int|
        0 <= k < vals.len() ==> (#[trigger] vals[k]) < st.d.graph.len() && st.d.graph.width(vals[k])
            == params[k].ty.width
}

pub proof fn lemma_args(
    prog: ProgramTree,
    st: Low,
    params: Seq<ParamTree>,
    args: Seq<ExprTree>,
    i: nat,
    vals: Seq<NodeId>,
)
    requires
        prog_ok(prog),
        sound(prog, st),
        st.roomy(),
        params.len() == args.len(),
        forall|k: int| 0 <= k < params.len() ==> width_ok((#[trigger] params[k]).ty.width),
        forall|k: int| 0 <= k < args.len() ==> expr_ok(#[trigger] args[k]),
        vals.len() == i,
        i <= args.len(),
        args_result(st, params, vals),
    ensures
        match lower_args(prog, st, params, args, i, vals) {
            Ok((st2, all)) => {
                &&& sound(prog, st2)
                &&& st2.roomy()
                &&& follows_on(st, st2)
                &&& st2.scopes == st.scopes
                &&& all.len() == args.len()
                &&& args_result(st2, params, all)
            },
            Err(_) => true,
        },
    decreases depth(prog, st), args_size(args, i), args.len() + 5 - i,
{
    if i >= args.len() {
        lemma_follows_refl(st);
    } else {
        let w = params[i as int].ty.width;
        lemma_sizes(args[i as int]);
        lemma_expr(prog, st, args[i as int], Some(w));
        if let Ok((st1, v)) = lower_expr(prog, st, args[i as int], Some(w)) {
            let (st2, v2) = if later_splits(args, i as int + 1) {
                st1.spill(v)
            } else {
                (st1, v)
            };
            if later_splits(args, i as int + 1) {
                lemma_spill(prog, st1, v);
            } else {
                lemma_follows_refl(st1);
            }
            lemma_follows_trans(st, st1, st2);
            if st2.roomy() {
                assert forall|k: int| 0 <= k < vals.push(v2).len() implies (
                #[trigger] vals.push(v2)[k]) < st2.d.graph.len() && st2.d.graph.width(
                    vals.push(v2)[k],
                ) == params[k].ty.width by {
                    if k < vals.len() {
                        assert(vals.push(v2)[k] == vals[k]);
                        assert(st2.d.graph.widths[vals[k] as int]
                            == st.d.graph.widths[vals[k] as int]);
                    }
                }
                lemma_args(prog, st2, params, args, i + 1, vals.push(v2));
                if let Ok((st3, all)) = lower_args(
                    prog,
                    st2,
                    params,
                    args,
                    i + 1,
                    vals.push(v2),
                ) {
                    lemma_follows_trans(st, st2, st3);
                }
            }
        }
    }
}

pub proof fn lemma_bind_params(
    prog: ProgramTree,
    st: Low,
    params: Seq<ParamTree>,
    vals: Seq<NodeId>,
    n: nat,
)
    requires
        sound(prog, st),
        near(st),
        n <= params.len(),
        vals.len() == params.len(),
        forall|k: int| 0 <= k < params.len() ==> width_ok((#[trigger] params[k]).ty.width),
        args_result(st, params, vals),
    ensures
        match bind_params(st, params, vals, n) {
            Ok((st2, frame)) => {
                &&& sound(prog, st2)
                &&& near(st2)
                &&& n > 0 ==> st2.roomy()
                &&& follows_on(st, st2)
                &&& st2.scopes == st.scopes
                &&& st2.d.graph == st.d.graph
                &&& st2.d.blocks == st.d.blocks
                &&& forall|k: int| 0 <= k < frame.len() ==> bound_ok(st2, (#[trigger] frame[k]).1)
            },
            Err(_) => true,
        },
    decreases n,
{
    if n == 0 {
        lemma_follows_refl(st);
    } else {
        lemma_bind_params(prog, st, params, vals, (n - 1) as nat);
        if let Ok((st1, frame)) = bind_params(st, params, vals, (n - 1) as nat) {
            let p = params[n - 1];
            assert(width_ok(p.ty.width));
            lemma_fresh_temp(prog, st1, p.ty.width);
            let (st2, r) = st1.fresh_temp(p.ty.width);
            assert(vals[n - 1] < st.d.graph.len());
            lemma_write(prog, st2, r, vals[n - 1]);
            let st3 = st2.write(r, vals[n - 1]);
            lemma_follows_trans(st, st1, st2);
            lemma_follows_trans(st, st2, st3);
            let frame2 = frame.push((p.name, Binding::Reg(r)));
            assert forall|k: int| 0 <= k < frame2.len() implies bound_ok(
                st3,
                (#[trigger] frame2[k]).1,
            ) by {
                if k < frame.len() {
                    assert(frame2[k] == frame[k]);
                    assert(bound_ok(st1, frame[k].1));
                }
            }
        }
    }
}

/// Setting up a call.
pub proof fn lemma_enter_call(
    prog: ProgramTree,
    st: Low,
    name: Seq<char>,
    frame: Seq<(Seq<char>, Binding)>,
    slot: Option<RegId>,
)
    requires
        sound(prog, st),
        near(st),
        forall|k: int| 0 <= k < frame.len() ==> bound_ok(st, (#[trigger] frame[k]).1),
        slot matches Some(r) ==> r < st.d.regs.len(),
        func_index(prog, name, 0) is Some,
        !st.stack.contains(name),
    ensures
        ({
            let (st4, ret_block) = enter_call(st, name, frame, slot);
            &&& sound(prog, st4)
            &&& ret_block < st4.d.blocks.len()
            &&& ret_block == st.d.blocks.len() + 1
            &&& st4.d.blocks.len() == st.d.blocks.len() + 2
            &&& st4.scopes == st.scopes.push(frame)
            &&& st4.stack == st.stack.push(name)
            &&& st4.rets == st.rets.push(ReturnTarget { slot, block: ret_block })
            &&& st4.d.graph == st.d.graph
            &&& st4.d.regs == st.d.regs
            &&& st4.d.inputs == st.d.inputs
            &&& st4.d.outputs == st.d.outputs
            &&& st4.d.entry == st.d.entry
        }),
{
    lemma_add_block(prog, st, "call."@ + name);
    let (st1, body_block) = st.add_block("call."@ + name);
    lemma_add_block(prog, st1, "ret."@ + name);
    let (st2, ret_block) = st1.add_block("ret."@ + name);
    lemma_close(prog, st2, Term::Jump(body_block));
    let st3 = st2.close(Term::Jump(body_block));
    lemma_enter(prog, st3, body_block);
    let st4 = st3.enter(body_block);
    assert forall|k: int| 0 <= k < frame.len() implies bound_ok(st4, (#[trigger] frame[k]).1) by {
        assert(bound_ok(st, frame[k].1));
    }
    lemma_scope(prog, st4, frame);
    let st5 = st4.push_scope(frame);
    let st6 = enter_call(st, name, frame, slot).0;
    assert(scopes_ok(st6)) by {
        assert forall|i: int, k: int|
            0 <= i < st6.scopes.len() && 0 <= k < st6.scopes[i].len() implies bound_ok(
            st6,
            (#[trigger] st6.scopes[i][k]).1,
        ) by {
            assert(bound_ok(st5, st5.scopes[i][k].1));
        }
    }
    assert forall|i: int| 0 <= i < st6.stack.len() implies func_index(
        prog,
        #[trigger] st6.stack[i],
        0,
    ) is Some by {
        if i < st.stack.len() {
            assert(st6.stack[i] == st.stack[i]);
        }
    }
    assert(st6.stack.no_duplicates()) by {
        assert forall|i: int, j: int|
            0 <= i < st6.stack.len() && 0 <= j < st6.stack.len() && i != j implies st6.stack[i]
            != st6.stack[j] by {
            if i < st.stack.len() && j < st.stack.len() {
            } else if i < st.stack.len() {
                assert(st.stack.contains(st.stack[i]));
            } else if j < st.stack.len() {
                assert(st.stack.contains(st.stack[j]));
            }
        }
    }
    assert forall|i: int| 0 <= i < st6.rets.len() implies (#[trigger] st6.rets[i]).block
        < st6.d.blocks.len() && (st6.rets[i].slot matches Some(r) ==> r < st6.d.regs.len()) by {
        if i < st.rets.len() {
            assert(st6.rets[i] == st.rets[i]);
        }
    }
}

/// Leaving the surroundings of a call.
pub proof fn lemma_popped(prog: ProgramTree, st5: Low)
    requires
        sound(prog, st5),
        st5.scopes.len() >= 2,
        st5.stack.len() >= 1,
        st5.rets.len() >= 1,
    ensures
        sound(
            prog,
            Low {
                scopes: st5.scopes.drop_last(),
                stack: st5.stack.drop_last(),
                rets: st5.rets.drop_last(),
                ..st5
            },
        ),
{
    let a = Low {
        scopes: st5.scopes.drop_last(),
        stack: st5.stack.drop_last(),
        rets: st5.rets.drop_last(),
        ..st5
    };
    assert(scopes_ok(a)) by {
        assert forall|i: int, k: int|
            0 <= i < a.scopes.len() && 0 <= k < a.scopes[i].len() implies bound_ok(
            a,
            (#[trigger] a.scopes[i][k]).1,
        ) by {
            assert(a.scopes[i] == st5.scopes[i]);
            assert(bound_ok(st5, st5.scopes[i][k].1));
        }
    }
    assert(stack_ok(prog, a.stack)) by {
        assert forall|i: int| 0 <= i < a.stack.len() implies func_index(
            prog,
            #[trigger] a.stack[i],
            0,
        ) is Some by {
            assert(a.stack[i] == st5.stack[i]);
        }
    }
    assert forall|i: int| 0 <= i < a.rets.len() implies (#[trigger] a.rets[i]).block
        < a.d.blocks.len() && (a.rets[i].slot matches Some(r) ==> r < a.d.regs.len()) by {
        assert(a.rets[i] == st5.rets[i]);
    }
}

/// Leaving the body of a call.
pub proof fn lemma_leave_call(prog: ProgramTree, st4: Low, st5: Low, ret_block: u32)
    requires
        sound(prog, st4),
        sound(prog, st5),
        near(st5),
        follows(st4, st5),
        st4.scopes.len() >= 2,
        st4.stack.len() >= 1,
        st4.rets.len() >= 1,
        ret_block < st4.d.blocks.len(),
    ensures
        ({
            let st6 = leave_call(st5, ret_block);
            &&& sound(prog, st6)
            &&& st6.d.graph == st5.d.graph
            &&& st6.d.regs == st5.d.regs
            &&& st6.d.inputs == st5.d.inputs
            &&& st6.d.outputs == st5.d.outputs
            &&& st6.d.entry == st5.d.entry
            &&& st6.d.blocks.len() == st5.d.blocks.len()
            &&& st6.scopes == st4.scopes.drop_last()
            &&& st6.stack == st4.stack.drop_last()
            &&& st6.rets == st4.rets.drop_last()
        }),
{
    let a = Low {
        scopes: st5.scopes.drop_last(),
        stack: st5.stack.drop_last(),
        rets: st5.rets.drop_last(),
        ..st5
    };
    lemma_popped(prog, st5);
    lemma_close(prog, a, Term::Jump(ret_block));
    let b = a.close(Term::Jump(ret_block));
    lemma_enter(prog, b, ret_block);
}

pub proof fn lemma_call(
    prog: ProgramTree,
    st: Low,
    name: Seq<char>,
    args: Seq<ExprTree>,
    span: Span,
)
    requires
        prog_ok(prog),
        sound(prog, st),
        st.roomy(),
        forall|k: int| 0 <= k < args.len() ==> expr_ok(#[trigger] args[k]),
    ensures
        expr_result(prog, st, lower_call(prog, st, name, args, span), None),
        near_result(lower_call(prog, st, name, args, span)),
    decreases depth(prog, st), 1 + args_size(args, 0), 1int,
{
    lemma_func_index(prog, name, 0);
    if let Some(k) = func_index(prog, name, 0) {
        let f = prog.funcs[k];
        assert(func_ok(f));
        if !st.stack.contains(name) && f.params.len() == args.len() {
            lemma_args(prog, st, f.params, args, 0, seq![]);
            if let Ok((st1, vals)) = lower_args(prog, st, f.params, args, 0, seq![]) {
                let (st2, slot) = result_slot(st1, f);
                lemma_follows_refl(st1);
                if let Some(t) = f.ret {
                    lemma_fresh_temp(prog, st1, t.width);
                }
                lemma_follows_trans(st, st1, st2);
                assert(args_result(st2, f.params, vals));
                lemma_bind_params(prog, st2, f.params, vals, f.params.len());
                if let Ok((st3, frame)) = bind_params(st2, f.params, vals, f.params.len()) {
                    lemma_follows_trans(st, st2, st3);
                    lemma_enter_call(prog, st3, name, frame, slot);
                    let (st4, ret_block) = enter_call(st3, name, frame, slot);
                    lemma_depth(prog, st4.stack);
                    if st4.roomy() && depth(prog, st4) < depth(prog, st) {
                        lemma_block(prog, st4, f.body);
                        if let Ok((st5, _)) = lower_block(prog, st4, f.body) {
                            lemma_leave_call(prog, st4, st5, ret_block);
                            let st6 = leave_call(st5, ret_block);
                            let g = st6.d.graph;
                            let rw = signal_widths(st6.d.regs);
                            let iw = signal_widths(st6.d.inputs);
                            assert(st6.scopes =~= st3.scopes);
                            assert(st6.stack =~= st3.stack);
                            assert(st6.rets =~= st3.rets);
                            assert(follows_on(st3, st6)) by {
                                assert forall|i: int|
                                    0 <= i < st3.d.regs.len() implies st3.d.regs[i]
                                    == st6.d.regs[i] by {
                                    assert(st4.d.regs[i] == st5.d.regs[i]);
                                }
                            }
                            lemma_follows_trans(st, st3, st6);
                            let out = match slot {
                                Some(r) => {
                                    assert(rw[r as int] == st6.d.regs[r as int].width);
                                    lemma_reg(g, rw, iw, zeros(rw.len()), seq![], r);
                                    g.intern(Node::Reg(r), st6.d.regs[r as int].width)
                                },
                                None => {
                                    lemma_constant(g, rw, iw, zeros(rw.len()), seq![], 0, 1);
                                    g.constant(0, 1)
                                },
                            };
                            let w = match slot {
                                Some(r) => st6.d.regs[r as int].width,
                                None => 1,
                            };
                            lemma_with(prog, st6, out, w);
                            lemma_follows_trans(st, st6, st6.with(out).0);
                        }
                    }
                }
            }
        }
    }
}

// --- statements ----------------------------------------------------------

/// What lowering a statement owes.
pub open spec fn stmt_result(prog: ProgramTree, st: Low, r: Lowered<()>) -> bool {
    match r {
        Ok((st2, _)) => sound(prog, st2) && follows_on(st, st2) && st2.roomy(),
        Err(_) => true,
    }
}

proof fn lemma_stmts(prog: ProgramTree, st: Low, b: Seq<StmtTree>, i: nat)
    requires
        prog_ok(prog),
        sound(prog, st),
        st.roomy(),
        stmts_ok(b),
    ensures
        stmt_result(prog, st, lower_stmts(prog, st, b, i)),
    decreases depth(prog, st), stmts_size(b, i), 8int,
{
    lemma_follows_refl(st);
    if i < b.len() {
        assert(stmt_ok(b[i as int]));
        lemma_stmt(prog, st, b[i as int]);
        if let Ok((st1, _)) = lower_stmt(prog, st, b[i as int]) {
            lemma_stmts(prog, st1, b, i + 1);
            if let Ok((st2, _)) = lower_stmts(prog, st1, b, i + 1) {
                lemma_follows_trans(st, st1, st2);
            }
        }
    }
}

/// Lowering a block keeps the state sound and leaves the scopes as they were.
pub proof fn lemma_block(prog: ProgramTree, st: Low, b: Seq<StmtTree>)
    requires
        prog_ok(prog),
        sound(prog, st),
        st.roomy(),
        stmts_ok(b),
    ensures
        stmt_result(prog, st, lower_block(prog, st, b)),
        lower_block(prog, st, b) matches Ok(r) ==> r.0.scopes == st.scopes,
    decreases depth(prog, st), stmts_size(b, 0), 9int,
{
    lemma_scope(prog, st, seq![]);
    let st0 = st.push_scope(seq![]);
    lemma_stmts(prog, st0, b, 0);
    if let Ok((st1, _)) = lower_stmts(prog, st0, b, 0) {
        lemma_pop_scope(prog, st1);
        let st2 = st1.pop_scope();
        assert(st0.scopes.drop_last() =~= st.scopes);
        assert(st2.scopes =~= st.scopes);
    }
}

proof fn lemma_if(
    prog: ProgramTree,
    st: Low,
    cond: ExprTree,
    then_b: Seq<StmtTree>,
    else_b: Option<Seq<StmtTree>>,
    span: Span,
)
    requires
        prog_ok(prog),
        sound(prog, st),
        st.roomy(),
        expr_ok(cond),
        stmts_ok(then_b),
        else_b matches Some(b) ==> stmts_ok(b),
    ensures
        stmt_result(
            prog,
            st,
            lower_stmt(prog, st, StmtTree::If { cond, then_b, else_b, span }),
        ),
    decreases
            depth(prog, st),
            expr_size(cond) + stmts_size(then_b, 0) + (match else_b {
                Some(b) => stmts_size(b, 0),
                None => 0,
            }),
            10int,
{
    lemma_sizes(cond);
    lemma_cond(prog, st, cond);
    if let Ok((st1, c)) = lower_cond(prog, st, cond) {
        lemma_add_block(prog, st1, "if.then"@);
        let (st2, then_id) = st1.add_block("if.then"@);
        lemma_add_block(prog, st2, "if.else"@);
        let (st3, else_id) = st2.add_block("if.else"@);
        lemma_add_block(prog, st3, "if.join"@);
        let (st4, join_id) = st3.add_block("if.join"@);
        let term = Term::Branch { cond: c, then_b: then_id, else_b: else_id };
        lemma_close(prog, st4, term);
        let st4c = st4.close(term);
        lemma_enter(prog, st4c, then_id);
        let st5 = st4c.enter(then_id);
        lemma_follows_trans(st, st1, st2);
        lemma_follows_trans(st, st2, st3);
        lemma_follows_trans(st, st3, st4);
        lemma_follows_trans(st, st4, st4c);
        lemma_enter_new(st, st4c, then_id);
        if st5.roomy() {
            lemma_block(prog, st5, then_b);
            if let Ok((st6, _)) = lower_block(prog, st5, then_b) {
                lemma_close(prog, st6, Term::Jump(join_id));
                let st6c = st6.close(Term::Jump(join_id));
                lemma_enter(prog, st6c, else_id);
                let st7 = st6c.enter(else_id);
                lemma_follows_trans(st, st5, st6);
                lemma_follows_trans(st, st6, st6c);
                lemma_enter_new(st, st6c, else_id);
                if st7.roomy() {
                    let other: Lowered<()> = match else_b {
                        Some(b) => {
                            lemma_block(prog, st7, b);
                            lower_block(prog, st7, b)
                        },
                        None => {
                            lemma_follows_refl(st7);
                            Ok((st7, ()))
                        },
                    };
                    if let Ok((st8, _)) = other {
                        lemma_close(prog, st8, Term::Jump(join_id));
                        let st8c = st8.close(Term::Jump(join_id));
                        lemma_enter(prog, st8c, join_id);
                        lemma_follows_trans(st, st7, st8);
                        lemma_follows_trans(st, st8, st8c);
                        lemma_enter_new(st, st8c, join_id);
                    }
                }
            }
        }
    }
}

proof fn lemma_while(
    prog: ProgramTree,
    st: Low,
    cond: ExprTree,
    body: Seq<StmtTree>,
    span: Span,
)
    requires
        prog_ok(prog),
        sound(prog, st),
        st.roomy(),
        expr_ok(cond),
        stmts_ok(body),
    ensures
        stmt_result(prog, st, lower_stmt(prog, st, StmtTree::While { cond, body, span })),
    decreases depth(prog, st), expr_size(cond) + stmts_size(body, 0), 10int,
{
    lemma_sizes(cond);
    lemma_add_block(prog, st, "while.head"@);
    let (st1, head) = st.add_block("while.head"@);
    lemma_close(prog, st1, Term::Jump(head));
    let st1c = st1.close(Term::Jump(head));
    lemma_enter(prog, st1c, head);
    let st2 = st1c.enter(head);
    lemma_follows_trans(st, st1, st1c);
    lemma_enter_new(st, st1c, head);
    if st2.roomy() {
        lemma_cond(prog, st2, cond);
        if let Ok((st3, c)) = lower_cond(prog, st2, cond) {
            lemma_add_block(prog, st3, "while.body"@);
            let (st4, body_id) = st3.add_block("while.body"@);
            lemma_add_block(prog, st4, "while.exit"@);
            let (st5, exit_id) = st4.add_block("while.exit"@);
            let term = Term::Branch { cond: c, then_b: body_id, else_b: exit_id };
            lemma_close(prog, st5, term);
            let st5c = st5.close(term);
            lemma_enter(prog, st5c, body_id);
            let st6 = st5c.enter(body_id);
            lemma_follows_trans(st, st2, st3);
            lemma_follows_trans(st, st3, st4);
            lemma_follows_trans(st, st4, st5);
            lemma_follows_trans(st, st5, st5c);
            lemma_enter_new(st, st5c, body_id);
            if st6.roomy() {
                lemma_block(prog, st6, body);
                if let Ok((st7, _)) = lower_block(prog, st6, body) {
                    lemma_close(prog, st7, Term::Jump(head));
                    let st7c = st7.close(Term::Jump(head));
                    lemma_enter(prog, st7c, exit_id);
                    lemma_follows_trans(st, st6, st7);
                    lemma_follows_trans(st, st7, st7c);
                    lemma_enter_new(st, st7c, exit_id);
                }
            }
        }
    }
}

/// Closing a block and going on in a dead one.
proof fn lemma_after_return(prog: ProgramTree, st: Low, term: Term)
    requires
        sound(prog, st),
        near(st),
        term_ok(st.d, term),
    ensures
        ({
            let (st1, b) = st.close(term).add_block("after.return"@);
            &&& sound(prog, st1.enter(b))
            &&& follows_on(st, st1.enter(b))
        }),
{
    lemma_close(prog, st, term);
    let a = st.close(term);
    lemma_add_block(prog, a, "after.return"@);
    let (st1, b) = a.add_block("after.return"@);
    lemma_enter(prog, st1, b);
    lemma_follows_trans(st, a, st1);
    lemma_enter_new(st, st1, b);
}

/// Lowering a statement keeps the state sound.
pub proof fn lemma_stmt(prog: ProgramTree, st: Low, s: StmtTree)
    requires
        prog_ok(prog),
        sound(prog, st),
        st.roomy(),
        stmt_ok(s),
    ensures
        stmt_result(prog, st, lower_stmt(prog, st, s)),
    decreases depth(prog, st), stmt_size(s), 7int,
{
    match s {
        StmtTree::Var { ty, name, init, .. } => {
            lemma_infer(prog, st, init);
            let w: Option<u32> = match ty {
                Some(t) => Some(t.width),
                None => match infer(prog, st, init) {
                    Ok(Some(w)) => Some(w),
                    _ => None,
                },
            };
            if let Some(w) = w {
                lemma_expr(prog, st, init, Some(w));
                if let Ok((st1, v)) = lower_expr(prog, st, init, Some(w)) {
                    let unique = name + "#"@ + crate::text::decimal(st1.d.regs.len());
                    lemma_add_reg(prog, st1, unique, w);
                    let (a, r) = st1.add_reg(unique, w);
                    lemma_bind(prog, a, name, Binding::Reg(r));
                    let b = a.bind(name, Binding::Reg(r));
                    lemma_write(prog, b, r, v);
                    lemma_follows_trans(st, st1, a);
                    lemma_follows_trans(st, a, b);
                    lemma_follows_trans(st, b, b.write(r, v));
                }
            }
        },
        StmtTree::Assign { name, value, .. } => {
            lemma_lookup(prog, st, name);
            if let Some(Binding::Reg(r)) = st.lookup(name) {
                let w = st.d.regs[r as int].width;
                lemma_expr(prog, st, value, Some(w));
                if let Ok((st1, v)) = lower_expr(prog, st, value, Some(w)) {
                    assert(st.d.regs[r as int] == st1.d.regs[r as int]);
                    lemma_write(prog, st1, r, v);
                    lemma_follows_trans(st, st1, st1.write(r, v));
                }
            }
        },
        StmtTree::Nested(b) => {
            assert(stmts_ok(b));
            lemma_block(prog, st, b);
        },
        StmtTree::If { cond, then_b, else_b, span } => {
            lemma_if(prog, st, cond, then_b, else_b, span);
        },
        StmtTree::While { cond, body, span } => {
            lemma_while(prog, st, cond, body, span);
        },
        StmtTree::Return { value, .. } => {
            if st.rets.len() == 0 {
                lemma_after_return(prog, st, Term::Halt);
            } else {
                let target = st.rets.last();
                assert(target == st.rets[st.rets.len() - 1]);
                match (value, target.slot) {
                    (Some(e), Some(r)) => {
                        let w = st.d.regs[r as int].width;
                        assert(width_ok(w));
                        lemma_expr(prog, st, e, Some(w));
                        if let Ok((st1, v)) = lower_expr(prog, st, e, Some(w)) {
                            assert(st.d.regs[r as int] == st1.d.regs[r as int]);
                            lemma_write(prog, st1, r, v);
                            let a = st1.write(r, v);
                            lemma_after_return(prog, a, Term::Jump(target.block));
                            lemma_follows_trans(st, st1, a);
                            let (b, id) = a.close(Term::Jump(target.block)).add_block(
                                "after.return"@,
                            );
                            lemma_follows_trans(st, a, b.enter(id));
                        }
                    },
                    (None, None) => {
                        lemma_after_return(prog, st, Term::Jump(target.block));
                    },
                    _ => {},
                }
            }
        },
    }
}

// --- whole programs ------------------------------------------------------

/// The state while ports are declared.
pub open spec fn ports_ok(st: Low) -> bool {
    &&& design_ok(st.d)
    &&& st.scopes.len() == 1
    &&& scopes_ok(st)
    &&& st.d.blocks.len() == 0
    &&& st.env == Map::<RegId, NodeId>::empty()
    &&& st.cur == 0
    &&& st.stack.len() == 0
    &&& st.rets.len() == 0
    &&& st.temps <= st.d.regs.len()
    &&& st.d.graph == (Graph { nodes: seq![], widths: seq![] })
}

pub proof fn lemma_add_port(st: Low, p: PortTree)
    requires
        ports_ok(st),
        st.roomy(),
        width_ok(p.ty.width),
    ensures
        ports_ok(add_port(st, p)),
{
    let st2 = add_port(st, p);
    let rw = signal_widths(st.d.regs);
    let iw = signal_widths(st.d.inputs);
    assert(st2.d.graph.typed(signal_widths(st2.d.regs), signal_widths(st2.d.inputs)));
    assert forall|i: int| 0 <= i < st2.d.regs.len() implies width_ok(
        (#[trigger] st2.d.regs[i]).width,
    ) by {
        if i < st.d.regs.len() {
            assert(st2.d.regs[i] == st.d.regs[i]);
        }
    }
    assert forall|i: int| 0 <= i < st2.d.inputs.len() implies width_ok(
        (#[trigger] st2.d.inputs[i]).width,
    ) by {
        if i < st.d.inputs.len() {
            assert(st2.d.inputs[i] == st.d.inputs[i]);
        }
    }
    assert forall|i: int| 0 <= i < st2.d.outputs.len() implies (#[trigger] st2.d.outputs[i]).1
        < st2.d.regs.len() by {
        if i < st.d.outputs.len() {
            assert(st2.d.outputs[i] == st.d.outputs[i]);
            assert(st.d.outputs[i].1 < st.d.regs.len());
        }
    }
    assert forall|i: int, k: int|
        0 <= i < st2.scopes.len() && 0 <= k < st2.scopes[i].len() implies bound_ok(
        st2,
        (#[trigger] st2.scopes[i][k]).1,
    ) by {
        if k < st.scopes[0].len() {
            assert(st2.scopes[i][k] == st.scopes[0][k]);
            assert(bound_ok(st, st.scopes[0][k].1));
        }
    }
}

pub proof fn lemma_ports(prog: ProgramTree, n: nat)
    requires
        prog_ok(prog),
        n <= prog.ports.len(),
    ensures
        lower_ports(prog, n) matches Ok(st) ==> ports_ok(st) && st.roomy(),
    decreases n,
{
    if n == 0 {
        let st = empty_state();
        assert(st.d.graph.typed(signal_widths(st.d.regs), signal_widths(st.d.inputs)));
        assert(scopes_ok(st));
    } else {
        lemma_ports(prog, (n - 1) as nat);
        if let Ok(st) = lower_ports(prog, (n - 1) as nat) {
            assert(width_ok(prog.ports[n - 1].ty.width));
            lemma_add_port(st, prog.ports[n - 1]);
        }
    }
}

pub proof fn lemma_enter_main(prog: ProgramTree, st: Low)
    requires
        ports_ok(st),
        st.d.blocks.len() == 0,
        func_index(prog, "main"@, 0) is Some,
    ensures
        sound(prog, enter_main(st)),
        enter_main(st).d.blocks.len() == 1,
        enter_main(st).scopes.len() == 2,
        enter_main(st).d.entry == 0,
        enter_main(st).cur == 0,
{
    let st2 = enter_main(st);
    assert forall|i: int, k: int|
        0 <= i < st2.scopes.len() && 0 <= k < st2.scopes[i].len() implies bound_ok(
        st2,
        (#[trigger] st2.scopes[i][k]).1,
    ) by {
        assert(i == 0);
        assert(st2.scopes[0] == st.scopes[0]);
        assert(bound_ok(st, st.scopes[0][k].1));
    }
    assert(st2.stack =~= seq!["main"@]);
}

/// Dropping blocks that cannot be reached keeps a design in order.
pub proof fn lemma_pruned(d: DesignTree)
    requires
        design_ok(d),
        d.entry < d.blocks.len(),
        d.blocks.len() <= u32::MAX,
    ensures
        design_ok(pruned(d)),
        pruned(d).entry < pruned(d).blocks.len(),
{
    let from = d.entry as int;
    let keep = reached(d.blocks, from, d.blocks.len());
    let p = pruned(d);
    lemma_reached(d.blocks, from, d.blocks.len());
    assert(is_path(d.blocks, from, from, seq![from]));
    assert(reachable(d.blocks, from, from));
    assert forall|k: int| 0 <= k < p.blocks.len() implies block_ok(p, #[trigger] p.blocks[k]) by {
        let old = d.blocks[keep[k] as int];
        let b = p.blocks[k];
        assert(keep[k] < d.blocks.len());
        assert(block_ok(d, old));
        assert forall|j: int| 0 <= j < b.assigns.len() implies write_ok(
            p,
            (#[trigger] b.assigns[j]).0,
            b.assigns[j].1,
        ) by {
            assert(write_ok(d, old.assigns[j].0, old.assigns[j].1));
        }
        match old.term {
            Term::Jump(t) => {
                lemma_reach_step(d.blocks, from, keep[k] as int, t as int);
            },
            Term::Branch { then_b, else_b, .. } => {
                lemma_reach_step(d.blocks, from, keep[k] as int, then_b as int);
                lemma_reach_step(d.blocks, from, keep[k] as int, else_b as int);
            },
            Term::Halt => {},
        }
    }
}

/// A design in order can be executed and turned into gates.
pub proof fn lemma_synthesizable(d: &Design)
    requires
        d.wf(),
        d.zero_start(),
        design_ok(d.tree()),
        d.entry < d.blocks@.len(),
    ensures
        synthesizable(d),
        writes_fit(d),
{
    let t = d.tree();
    let g = d.graph();
    assert(d.reg_widths() =~= signal_widths(t.regs));
    assert(d.input_widths() =~= signal_widths(t.inputs));
    assert forall|i: int| 0 <= i < g.nodes.len() implies node_runnable(d, #[trigger] g.nodes[i]) by {
        assert(typed_as(g, d.reg_widths(), d.input_widths(), g.nodes[i], g.widths[i]));
        assert(operands_below(g.nodes[i], i));
        if let Node::Bit { src, bit } = g.nodes[i] {
            assert(node_operands(g.nodes[i])[0] == src);
            assert(typed_as(
                g,
                d.reg_widths(),
                d.input_widths(),
                g.nodes[src as int],
                g.widths[src as int],
            ));
        }
    }
    assert forall|i: int| 0 <= i < d.blocks@.len() implies block_runnable(
        d,
        #[trigger] d.blocks@[i],
    ) && distinct_writes(d.blocks@[i]) && forall|k: int|
        0 <= k < d.blocks@[i].assigns@.len() ==> g.width((#[trigger] d.blocks@[i].assigns@[k]).1)
            == d.regs@[d.blocks@[i].assigns@[k].0 as int].width by {
        let b = d.blocks@[i];
        assert(t.blocks[i] == block_tree(b));
        assert(block_ok(t, t.blocks[i]));
        assert forall|k: int| 0 <= k < b.assigns@.len() implies (#[trigger] b.assigns@[k]).0
            < d.regs@.len() && b.assigns@[k].1 < g.len() && g.width(b.assigns@[k].1)
            == d.regs@[b.assigns@[k].0 as int].width by {
            assert(write_ok(t, t.blocks[i].assigns[k].0, t.blocks[i].assigns[k].1));
        }
        assert(distinct_writes(b)) by {
            assert forall|x: int, y: int| 0 <= x < y < b.assigns@.len() implies (
            #[trigger] b.assigns@[x]).0 != (#[trigger] b.assigns@[y]).0 by {
                assert(t.blocks[i].assigns[x].0 < t.blocks[i].assigns[y].0);
            }
        }
        assert(block_runnable(d, b));
    }
    assert forall|r: int| 0 <= r < d.regs@.len() implies 1 <= (#[trigger] d.regs@[r]).width <= 64
        && crate::bits::mask_of(d.regs@[r].reset, d.regs@[r].width) == 0 by {
        assert(width_ok(t.regs[r].width));
        lemma_small(d.regs@[r].width);
    }
    assert forall|k: int| 0 <= k < d.outputs@.len() implies (#[trigger] d.outputs@[k]).1
        < d.regs@.len() by {
        assert(t.outputs[k].1 < t.regs.len());
    }
}

/// Every register is written at its own width.
pub open spec fn writes_fit(d: &Design) -> bool {
    forall|i: int, k: int|
        0 <= i < d.blocks@.len() && 0 <= k < d.blocks@[i].assigns@.len() ==> d.graph().width(
            (#[trigger] d.blocks@[i].assigns@[k]).1,
        ) == d.regs@[d.blocks@[i].assigns@[k].0 as int].width
}

} // verus!
