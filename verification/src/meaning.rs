//! What source text means within a clock cycle, and that lowering keeps to it.
//!
//! Within a block, expressions read the register values from the start of the cycle
//! and all writes commit together at its end. Sequential source semantics survive
//! because lowering threads an environment of the value so far of each variable.
use crate::ast::{predicate, BinOp, ExprTree, ProgramTree, StmtTree, UnOp};
use crate::bits::{flag, mask_of};
use crate::ir::{Design, DesignTree, Graph, Node, NodeId, RegId};
use crate::ir_values::{
    built, lemma_any, lemma_arith, lemma_compare, lemma_compare_not, lemma_constant, lemma_input,
    lemma_logic, lemma_mux, lemma_not, lemma_reg, lemma_resize, lemma_shift, lemma_sub,
    lemma_value, lemma_value_fits, lemma_value_kept, regs_fit,
};
use crate::lower::{
    arith_node, compare_node, either, expr_size, find, find_in, infer, logic_node, lower_binary, lower_cond,
    lower_expr, lower_pair, lower_raw, lower_stmt, pending, shift_bits, splits, unary_node, unary_width,
    width_or, Binding, Low,
};
use crate::lower_types::{
    expr_ok, lemma_cond, lemma_expr, lemma_infer, lemma_lookup, lemma_pair, prog_ok, signal_widths,
    sound, width_ok,
};
use crate::machine::commit;
use vstd::arithmetic::power2::pow2;
use vstd::prelude::*;

verus! {

/// The start of a clock cycle: what the registers hold and the inputs read.
pub struct Moment {
    pub regs: Seq<u64>,
    pub ins: Seq<u64>,
}

/// What a name stands for at this point of the cycle: the value so far of a variable,
/// or an input.
pub open spec fn so_far(st: Low, m: Moment, b: Binding) -> u64 {
    match b {
        Binding::Reg(r) => if st.env.contains_key(r) {
            st.d.graph.value(m.regs, m.ins, st.env[r])
        } else {
            m.regs[r as int]
        },
        Binding::Input(i) => mask_of(
            if i < m.ins.len() {
                m.ins[i as int]
            } else {
                0
            },
            st.d.inputs[i as int].width,
        ),
    }
}

/// The width that an expression forces on its own.
pub open spec fn own_width(prog: ProgramTree, st: Low, e: ExprTree) -> Option<u32> {
    match infer(prog, st, e) {
        Ok(w) => w,
        Err(_) => None,
    }
}

pub open spec fn unary_value(op: UnOp, v: u64, w: u32) -> u64 {
    match op {
        UnOp::Not => flag(v == 0),
        UnOp::BitNot => mask_of(!v, w),
        UnOp::Neg => ((0 - v) % (pow2(w as nat) as int)) as u64,
    }
}

/// Comparisons are unsigned; the logical operators look at both sides.
pub open spec fn test_value(op: BinOp, l: u64, r: u64) -> u64 {
    match op {
        BinOp::LAnd => flag(l != 0 && r != 0),
        BinOp::LOr => flag(l != 0 || r != 0),
        BinOp::Eq => flag(l == r),
        BinOp::Ne => flag(l != r),
        BinOp::Lt => flag(l < r),
        BinOp::Le => flag(l <= r),
        BinOp::Gt => flag(l > r),
        _ => flag(l >= r),
    }
}

/// Arithmetic wraps at the width.
pub open spec fn arith_value(op: BinOp, l: u64, r: u64, w: u32) -> u64 {
    match op {
        BinOp::Add => ((l + r) % (pow2(w as nat) as int)) as u64,
        BinOp::Sub => ((l - r) % (pow2(w as nat) as int)) as u64,
        BinOp::Mul => ((l * r) % (pow2(w as nat) as int)) as u64,
        BinOp::And => l & r,
        BinOp::Or => l | r,
        _ => l ^ r,
    }
}

pub open spec fn shift_value(op: BinOp, l: u64, r: u64, w: u32) -> u64 {
    if r >= 64 {
        0
    } else if op is Shl {
        mask_of(l << r, w)
    } else {
        l >> r
    }
}

/// What an expression means where a word of the expected width is asked for.
pub open spec fn meant(prog: ProgramTree, st: Low, m: Moment, e: ExprTree, expected: Option<u32>) -> u64
    decreases e, 1int,
{
    match expected {
        Some(w) => mask_of(meant_raw(prog, st, m, e, expected), w),
        None => meant_raw(prog, st, m, e, expected),
    }
}

/// What an expression without calls means at its own width. Nothing is left
/// unevaluated: both sides of `&&` and `||` and both arms of `? :` are words.
pub open spec fn meant_raw(
    prog: ProgramTree,
    st: Low,
    m: Moment,
    e: ExprTree,
    expected: Option<u32>,
) -> u64
    decreases e, 0int,
{
    match e {
        ExprTree::Num { value, .. } => mask_of(value, width_or(expected, 64)),
        ExprTree::Ident { name, .. } => match st.lookup(name) {
            Some(b) => so_far(st, m, b),
            None => 0,
        },
        ExprTree::Cast { operand, ty, .. } => {
            let w = width_or(own_width(prog, st, *operand), ty.width);
            mask_of(meant(prog, st, m, *operand, Some(w)), ty.width)
        },
        ExprTree::Unary { op, operand, .. } => {
            let w = width_or(unary_width(op, expected, own_width(prog, st, *operand)), 1);
            unary_value(op, meant(prog, st, m, *operand, Some(w)), w)
        },
        ExprTree::Binary { op, lhs, rhs, .. } => {
            let a = own_width(prog, st, *lhs);
            let b = own_width(prog, st, *rhs);
            if op is LAnd || op is LOr {
                test_value(
                    op,
                    meant(prog, st, m, *lhs, Some(width_or(a, 1))),
                    meant(prog, st, m, *rhs, Some(width_or(b, 1))),
                )
            } else if op is Shl || op is Shr {
                let w = width_or(either(expected, a), 1);
                shift_value(
                    op,
                    meant(prog, st, m, *lhs, Some(w)),
                    meant(prog, st, m, *rhs, Some(width_or(b, shift_bits(w)))),
                    w,
                )
            } else if predicate(op) {
                let w = width_or(either(a, b), 1);
                test_value(op, meant(prog, st, m, *lhs, Some(w)), meant(prog, st, m, *rhs, Some(w)))
            } else {
                let w = width_or(either(expected, either(a, b)), 1);
                arith_value(
                    op,
                    meant(prog, st, m, *lhs, Some(w)),
                    meant(prog, st, m, *rhs, Some(w)),
                    w,
                )
            }
        },
        ExprTree::Ternary { cond, then_e, else_e, .. } => {
            let c = meant(prog, st, m, *cond, Some(width_or(own_width(prog, st, *cond), 1)));
            let w = width_or(
                either(expected, either(own_width(prog, st, *then_e), own_width(prog, st, *else_e))),
                1,
            );
            if c != 0 {
                meant(prog, st, m, *then_e, Some(w))
            } else {
                meant(prog, st, m, *else_e, Some(w))
            }
        },
        ExprTree::Call { .. } => 0,
    }
}

// --- lowering grows the graph, nothing else --------------------------------------------------

/// `later` is `st` with more nodes.
pub open spec fn grew(st: Low, later: Low) -> bool {
    &&& st.d.graph.prefix_of(later.d.graph)
    &&& later == (Low { d: DesignTree { graph: later.d.graph, ..st.d }, ..st })
}

proof fn lemma_grew_trans(a: Low, b: Low, c: Low)
    requires
        grew(a, b),
        grew(b, c),
    ensures
        grew(a, c),
{
}

/// More nodes change no width.
proof fn lemma_infer_same(prog: ProgramTree, st: Low, later: Low, e: ExprTree)
    requires
        grew(st, later),
    ensures
        infer(prog, later, e) == infer(prog, st, e),
    decreases e,
{
    match e {
        ExprTree::Unary { operand, .. } => {
            lemma_infer_same(prog, st, later, *operand);
        },
        ExprTree::Binary { lhs, rhs, .. } => {
            lemma_infer_same(prog, st, later, *lhs);
            lemma_infer_same(prog, st, later, *rhs);
        },
        ExprTree::Ternary { then_e, else_e, .. } => {
            lemma_infer_same(prog, st, later, *then_e);
            lemma_infer_same(prog, st, later, *else_e);
        },
        _ => {},
    }
}

/// The setting of a lowering: `st` has grown out of `base`.
spec fn setting(prog: ProgramTree, base: Low, st: Low, m: Moment) -> bool {
    &&& prog_ok(prog)
    &&& sound(prog, base)
    &&& sound(prog, st)
    &&& st.roomy()
    &&& grew(base, st)
    &&& regs_fit(signal_widths(base.d.regs), m.regs)
}

/// A node was added that has a value.
spec fn gives(base: Low, st: Low, v: NodeId, m: Moment, value: u64) -> bool {
    &&& grew(base, st)
    &&& v < st.d.graph.len()
    &&& st.d.graph.value(m.regs, m.ins, v) == value
}

/// A node keeps its value.
proof fn lemma_keeps(base: Low, st: Low, later: Low, v: NodeId, m: Moment, value: u64, rw: Seq<u32>, iw: Seq<u32>)
    requires
        gives(base, st, v, m, value),
        grew(st, later),
        st.d.graph.typed(rw, iw),
    ensures
        gives(base, later, v, m, value),
{
    lemma_value_kept(st.d.graph, later.d.graph, m.regs, m.ins, v);
}

/// A constructor's node is added.
proof fn lemma_added(prog: ProgramTree, base: Low, st: Low, r: (Graph, NodeId), w: u32, m: Moment)
    requires
        grew(base, st),
        sound(prog, st),
        built(st.d.graph, signal_widths(st.d.regs), signal_widths(st.d.inputs), r, w),
    ensures
        sound(prog, st.with(r).0),
        grew(st, st.with(r).0),
        gives(base, st.with(r).0, r.1, m, r.0.value(m.regs, m.ins, r.1)),
{
    crate::lower_types::lemma_with(prog, st, r, w);
}

/// The setting of an operation on words that have been lowered.
spec fn at_hand(prog: ProgramTree, base: Low, st: Low, m: Moment) -> bool {
    &&& sound(prog, st)
    &&& st.d.graph.len() + 8 <= u32::MAX
    &&& grew(base, st)
    &&& regs_fit(signal_widths(st.d.regs), m.regs)
}

proof fn lemma_unary(prog: ProgramTree, base: Low, st: Low, op: UnOp, v: NodeId, w: u32, m: Moment, x: u64)
    requires
        at_hand(prog, base, st, m),
        gives(base, st, v, m, x),
        st.d.graph.width(v) == w,
        width_ok(w),
    ensures
        gives(base, unary_node(st, op, v, w).0, unary_node(st, op, v, w).1, m, unary_value(op, x, w)),
{
    reveal(unary_node);
    let g = st.d.graph;
    let rw = signal_widths(st.d.regs);
    let iw = signal_widths(st.d.inputs);
    match op {
        UnOp::Not => {
            lemma_any(g, rw, iw, m.regs, m.ins, v);
            lemma_added(prog, base, st, g.any(v), 1, m);
            let (st2, nz) = st.with(g.any(v));
            lemma_not(st2.d.graph, rw, iw, m.regs, m.ins, nz);
            lemma_added(prog, base, st2, st2.d.graph.not(nz), 1, m);
            crate::ir_values::lemma_not_flag(true);
            crate::ir_values::lemma_not_flag(false);
        },
        UnOp::BitNot => {
            lemma_not(g, rw, iw, m.regs, m.ins, v);
            lemma_added(prog, base, st, g.not(v), w, m);
        },
        UnOp::Neg => {
            lemma_constant(g, rw, iw, m.regs, m.ins, 0, w);
            lemma_added(prog, base, st, g.constant(0, w), w, m);
            let (st2, z) = st.with(g.constant(0, w));
            lemma_keeps(base, st, st2, v, m, x, rw, iw);
            crate::bits::lemma_small(w);
            lemma_sub(st2.d.graph, rw, iw, m.regs, m.ins, z, v);
            lemma_added(prog, base, st2, st2.d.graph.sub(z, v), w, m);
        },
    }
}

proof fn lemma_logical(prog: ProgramTree, base: Low, st: Low, op: BinOp, l: NodeId, r: NodeId, m: Moment, x: u64, y: u64)
    requires
        at_hand(prog, base, st, m),
        gives(base, st, l, m, x),
        gives(base, st, r, m, y),
        op is LAnd || op is LOr,
    ensures
        gives(base, logic_node(st, op, l, r).0, logic_node(st, op, l, r).1, m, test_value(op, x, y)),
{
    reveal(logic_node);
    let g = st.d.graph;
    let rw = signal_widths(st.d.regs);
    let iw = signal_widths(st.d.inputs);
    lemma_any(g, rw, iw, m.regs, m.ins, l);
    lemma_added(prog, base, st, g.any(l), 1, m);
    let (st2, la) = st.with(g.any(l));
    lemma_keeps(base, st, st2, r, m, y, rw, iw);
    lemma_any(st2.d.graph, rw, iw, m.regs, m.ins, r);
    lemma_added(prog, base, st2, st2.d.graph.any(r), 1, m);
    let (st3, ra) = st2.with(st2.d.graph.any(r));
    lemma_keeps(base, st2, st3, la, m, flag(x != 0), rw, iw);
    lemma_logic(st3.d.graph, rw, iw, m.regs, m.ins, la, ra);
    assert(1u64 & 1 == 1 && 1u64 & 0 == 0 && 0u64 & 1 == 0 && 0u64 & 0 == 0 && 1u64 | 1 == 1 && 1u64 | 0 == 1
        && 0u64 | 1 == 1 && 0u64 | 0 == 0) by (bit_vector);
    if op is LAnd {
        lemma_added(prog, base, st3, st3.d.graph.and(la, ra), 1, m);
    } else {
        lemma_added(prog, base, st3, st3.d.graph.or(la, ra), 1, m);
    }
}

proof fn lemma_test(prog: ProgramTree, base: Low, st: Low, op: BinOp, l: NodeId, r: NodeId, m: Moment, x: u64, y: u64)
    requires
        at_hand(prog, base, st, m),
        gives(base, st, l, m, x),
        gives(base, st, r, m, y),
        st.d.graph.width(l) == st.d.graph.width(r),
        predicate(op),
        !(op is LAnd),
        !(op is LOr),
    ensures
        ({
            let n = compare_node(st.d.graph, op, l, r);
            gives(base, st.with(n).0, n.1, m, test_value(op, x, y))
        }),
{
    reveal(compare_node);
    let g = st.d.graph;
    let rw = signal_widths(st.d.regs);
    let iw = signal_widths(st.d.inputs);
    lemma_compare(g, rw, iw, m.regs, m.ins, l, r);
    lemma_compare(g, rw, iw, m.regs, m.ins, r, l);
    lemma_compare_not(g, rw, iw, m.regs, m.ins, l, r);
    lemma_added(prog, base, st, compare_node(g, op, l, r), 1, m);
}

proof fn lemma_calc(prog: ProgramTree, base: Low, st: Low, op: BinOp, l: NodeId, r: NodeId, w: u32, m: Moment, x: u64, y: u64)
    requires
        at_hand(prog, base, st, m),
        gives(base, st, l, m, x),
        gives(base, st, r, m, y),
        st.d.graph.width(l) == w,
        st.d.graph.width(r) == w,
    ensures
        ({
            let n = arith_node(st.d.graph, op, l, r);
            gives(base, st.with(n).0, n.1, m, arith_value(op, x, y, w))
        }),
{
    reveal(arith_node);
    let g = st.d.graph;
    let rw = signal_widths(st.d.regs);
    let iw = signal_widths(st.d.inputs);
    lemma_arith(g, rw, iw, m.regs, m.ins, l, r);
    lemma_sub(g, rw, iw, m.regs, m.ins, l, r);
    lemma_logic(g, rw, iw, m.regs, m.ins, l, r);
    lemma_added(prog, base, st, arith_node(g, op, l, r), w, m);
}

// --- expressions -------------------------------------------------------------------------------

/// The state of an expression that has been lowered, and its value.
spec fn says(base: Low, r: crate::lower::Lowered<NodeId>, m: Moment, value: u64) -> bool {
    match r {
        Ok((st, v)) => gives(base, st, v, m, value),
        Err(_) => true,
    }
}

proof fn lemma_expr_meaning(prog: ProgramTree, base: Low, st: Low, m: Moment, e: ExprTree, expected: Option<u32>)
    requires
        setting(prog, base, st, m),
        expr_ok(e),
        !splits(e),
        expected matches Some(w) ==> width_ok(w),
    ensures
        says(base, lower_expr(prog, st, e, expected), m, meant(prog, base, m, e, expected)),
    decreases expr_size(e), 3int,
{
    lemma_raw_meaning(prog, base, st, m, e, expected);
    crate::lower_types::lemma_raw(prog, st, e, expected);
    if let Ok((st1, v)) = lower_raw(prog, st, e, expected) {
        if let Some(w) = expected {
            let g = st1.d.graph;
            let rw = signal_widths(st1.d.regs);
            let iw = signal_widths(st1.d.inputs);
            lemma_resize(g, rw, iw, m.regs, m.ins, v, w);
            lemma_added(prog, base, st1, g.resize(v, w), w, m);
        }
    }
}

proof fn lemma_cond_meaning(prog: ProgramTree, base: Low, st: Low, m: Moment, e: ExprTree)
    requires
        setting(prog, base, st, m),
        expr_ok(e),
        !splits(e),
    ensures
        says(
            base,
            lower_cond(prog, st, e),
            m,
            flag(meant(prog, base, m, e, Some(width_or(own_width(prog, base, e), 1))) != 0),
        ),
    decreases expr_size(e), 4int,
{
    lemma_infer_same(prog, base, st, e);
    lemma_infer(prog, st, e);
    if let Ok(w) = infer(prog, st, e) {
        lemma_expr_meaning(prog, base, st, m, e, Some(width_or(w, 1)));
        lemma_expr(prog, st, e, Some(width_or(w, 1)));
        if let Ok((st1, v)) = lower_expr(prog, st, e, Some(width_or(w, 1))) {
            let g = st1.d.graph;
            let rw = signal_widths(st1.d.regs);
            let iw = signal_widths(st1.d.inputs);
            lemma_any(g, rw, iw, m.regs, m.ins, v);
            lemma_added(prog, base, st1, g.any(v), 1, m);
        }
    }
}

proof fn lemma_pair_meaning(
    prog: ProgramTree,
    base: Low,
    st: Low,
    m: Moment,
    lhs: ExprTree,
    rhs: ExprTree,
    lw: u32,
    rw: u32,
)
    requires
        setting(prog, base, st, m),
        expr_ok(lhs),
        expr_ok(rhs),
        !splits(lhs),
        !splits(rhs),
        width_ok(lw),
        width_ok(rw),
    ensures
        match lower_pair(prog, st, lhs, rhs, lw, rw) {
            Ok((st2, (a, b))) => {
                &&& gives(base, st2, a, m, meant(prog, base, m, lhs, Some(lw)))
                &&& gives(base, st2, b, m, meant(prog, base, m, rhs, Some(rw)))
                &&& sound(prog, st2)
                &&& st2.roomy()
                &&& st2.d.graph.width(a) == lw
                &&& st2.d.graph.width(b) == rw
            },
            Err(_) => true,
        },
    decreases expr_size(lhs) + expr_size(rhs), 4int,
{
    crate::lower_types::lemma_sizes(lhs);
    crate::lower_types::lemma_sizes(rhs);
    lemma_pair(prog, st, lhs, rhs, lw, rw);
    lemma_expr(prog, st, lhs, Some(lw));
    lemma_expr_meaning(prog, base, st, m, lhs, Some(lw));
    if let Ok((st1, l)) = lower_expr(prog, st, lhs, Some(lw)) {
        lemma_expr_meaning(prog, base, st1, m, rhs, Some(rw));
        lemma_expr_meaning(prog, st1, st1, m, rhs, Some(rw));
        if let Ok((st3, r)) = lower_expr(prog, st1, rhs, Some(rw)) {
            lemma_keeps(
                base,
                st1,
                st3,
                l,
                m,
                meant(prog, base, m, lhs, Some(lw)),
                signal_widths(st1.d.regs),
                signal_widths(st1.d.inputs),
            );
        }
    }
}

proof fn lemma_raw_meaning(prog: ProgramTree, base: Low, st: Low, m: Moment, e: ExprTree, expected: Option<u32>)
    requires
        setting(prog, base, st, m),
        expr_ok(e),
        !splits(e),
        expected matches Some(w) ==> width_ok(w),
    ensures
        says(base, lower_raw(prog, st, e, expected), m, meant_raw(prog, base, m, e, expected)),
    decreases expr_size(e), 2int,
{
    let g = st.d.graph;
    let rw = signal_widths(st.d.regs);
    let iw = signal_widths(st.d.inputs);
    match e {
        ExprTree::Num { value, .. } => {
            if let Some(w) = expected {
                lemma_constant(g, rw, iw, m.regs, m.ins, value, w);
                lemma_added(prog, base, st, g.constant(value, w), w, m);
            }
        },
        ExprTree::Ident { name, .. } => {
            lemma_lookup(prog, st, name);
            assert(st.lookup(name) == base.lookup(name));
            match st.lookup(name) {
                Some(Binding::Reg(r)) => {
                    if st.env.contains_key(r) {
                        lemma_value_kept(base.d.graph, g, m.regs, m.ins, st.env[r]);
                    } else {
                        assert(rw[r as int] == st.d.regs[r as int].width);
                        lemma_reg(g, rw, iw, m.regs, m.ins, r);
                        lemma_added(
                            prog,
                            base,
                            st,
                            g.intern(Node::Reg(r), st.d.regs[r as int].width),
                            st.d.regs[r as int].width,
                            m,
                        );
                    }
                },
                Some(Binding::Input(i)) => {
                    assert(iw[i as int] == st.d.inputs[i as int].width);
                    lemma_input(g, rw, iw, m.regs, m.ins, i);
                    lemma_added(
                        prog,
                        base,
                        st,
                        g.intern(Node::Input(i), st.d.inputs[i as int].width),
                        st.d.inputs[i as int].width,
                        m,
                    );
                },
                None => {},
            }
        },
        ExprTree::Cast { operand, ty, .. } => {
            lemma_infer_same(prog, base, st, *operand);
            lemma_infer(prog, st, *operand);
            if let Ok(inner) = infer(prog, st, *operand) {
                let w = width_or(inner, ty.width);
                lemma_expr(prog, st, *operand, Some(w));
                lemma_expr_meaning(prog, base, st, m, *operand, Some(w));
                if let Ok((st1, v)) = lower_expr(prog, st, *operand, Some(w)) {
                    lemma_resize(st1.d.graph, rw, iw, m.regs, m.ins, v, ty.width);
                    lemma_added(prog, base, st1, st1.d.graph.resize(v, ty.width), ty.width, m);
                }
            }
        },
        ExprTree::Unary { op, operand, .. } => {
            lemma_infer_same(prog, base, st, *operand);
            lemma_infer(prog, st, *operand);
            if let Ok(inner) = infer(prog, st, *operand) {
                if let Some(w) = unary_width(op, expected, inner) {
                    lemma_expr(prog, st, *operand, Some(w));
                    lemma_expr_meaning(prog, base, st, m, *operand, Some(w));
                    if let Ok((st1, v)) = lower_expr(prog, st, *operand, Some(w)) {
                        lemma_unary(prog, base, st1, op, v, w, m, meant(prog, base, m, *operand, Some(w)));
                    }
                }
            }
        },
        ExprTree::Binary { op, lhs, rhs, span } => {
            lemma_binary_meaning(prog, base, st, m, op, *lhs, *rhs, expected, span);
        },
        ExprTree::Ternary { cond, then_e, else_e, .. } => {
            lemma_ternary_meaning(prog, base, st, m, e, expected);
        },
        ExprTree::Call { .. } => {},
    }
}

proof fn lemma_binary_meaning(
    prog: ProgramTree,
    base: Low,
    st: Low,
    m: Moment,
    op: BinOp,
    lhs: ExprTree,
    rhs: ExprTree,
    expected: Option<u32>,
    span: crate::lexer::Span,
)
    requires
        setting(prog, base, st, m),
        expr_ok(lhs),
        expr_ok(rhs),
        !splits(lhs),
        !splits(rhs),
        expected matches Some(w) ==> width_ok(w),
    ensures
        says(
            base,
            lower_binary(prog, st, op, lhs, rhs, expected, span),
            m,
            meant_raw(
                prog,
                base,
                m,
                ExprTree::Binary { op, lhs: Box::new(lhs), rhs: Box::new(rhs), span },
                expected,
            ),
        ),
    decreases expr_size(lhs) + expr_size(rhs), 5int,
{
    lemma_infer_same(prog, base, st, lhs);
    lemma_infer_same(prog, base, st, rhs);
    lemma_infer(prog, st, lhs);
    lemma_infer(prog, st, rhs);
    if let Ok(a) = infer(prog, st, lhs) {
        if let Ok(b) = infer(prog, st, rhs) {
            if op is LAnd || op is LOr {
                let (lw, rw) = (width_or(a, 1), width_or(b, 1));
                lemma_pair_meaning(prog, base, st, m, lhs, rhs, lw, rw);
                if let Ok((st1, (l, r))) = lower_pair(prog, st, lhs, rhs, lw, rw) {
                    lemma_logical(
                        prog,
                        base,
                        st1,
                        op,
                        l,
                        r,
                        m,
                        meant(prog, base, m, lhs, Some(lw)),
                        meant(prog, base, m, rhs, Some(rw)),
                    );
                }
            } else if op is Shl || op is Shr {
                if let Some(w) = either(expected, a) {
                    let rw = width_or(b, shift_bits(w));
                    lemma_pair_meaning(prog, base, st, m, lhs, rhs, w, rw);
                    if let Ok((st1, (l, r))) = lower_pair(prog, st, lhs, rhs, w, rw) {
                        let g = st1.d.graph;
                        let rws = signal_widths(st1.d.regs);
                        let iws = signal_widths(st1.d.inputs);
                        lemma_shift(g, rws, iws, m.regs, m.ins, l, r);
                        if op is Shl {
                            lemma_added(prog, base, st1, g.shl(l, r), w, m);
                        } else {
                            lemma_added(prog, base, st1, g.shr(l, r), w, m);
                        }
                    }
                }
            } else if predicate(op) {
                if let Some(w) = either(a, b) {
                    lemma_pair_meaning(prog, base, st, m, lhs, rhs, w, w);
                    if let Ok((st1, (l, r))) = lower_pair(prog, st, lhs, rhs, w, w) {
                        lemma_test(
                            prog,
                            base,
                            st1,
                            op,
                            l,
                            r,
                            m,
                            meant(prog, base, m, lhs, Some(w)),
                            meant(prog, base, m, rhs, Some(w)),
                        );
                    }
                }
            } else {
                if let Some(w) = either(expected, either(a, b)) {
                    lemma_pair_meaning(prog, base, st, m, lhs, rhs, w, w);
                    if let Ok((st1, (l, r))) = lower_pair(prog, st, lhs, rhs, w, w) {
                        lemma_calc(
                            prog,
                            base,
                            st1,
                            op,
                            l,
                            r,
                            w,
                            m,
                            meant(prog, base, m, lhs, Some(w)),
                            meant(prog, base, m, rhs, Some(w)),
                        );
                    }
                }
            }
        }
    }
}

proof fn lemma_ternary_meaning(prog: ProgramTree, base: Low, st: Low, m: Moment, e: ExprTree, expected: Option<u32>)
    requires
        setting(prog, base, st, m),
        e is Ternary,
        expr_ok(e),
        !splits(e),
        expected matches Some(w) ==> width_ok(w),
    ensures
        says(base, lower_raw(prog, st, e, expected), m, meant_raw(prog, base, m, e, expected)),
    decreases expr_size(e), 1int,
{
    if let ExprTree::Ternary { cond, then_e, else_e, .. } = e {
        let (cond, then_e, else_e) = (*cond, *then_e, *else_e);
        lemma_infer_same(prog, base, st, then_e);
        lemma_infer_same(prog, base, st, else_e);
        lemma_infer(prog, st, then_e);
        lemma_infer(prog, st, else_e);
        crate::lower_types::lemma_sizes(cond);
        if let Ok(a) = infer(prog, st, then_e) {
            if let Ok(b) = infer(prog, st, else_e) {
                if let Some(w) = either(expected, either(a, b)) {
                    lemma_cond(prog, st, cond);
                    lemma_cond_meaning(prog, base, st, m, cond);
                    if let Ok((st1, c)) = lower_cond(prog, st, cond) {
                        let rw = signal_widths(st1.d.regs);
                        let iw = signal_widths(st1.d.inputs);
                        let test = flag(
                            meant(prog, base, m, cond, Some(width_or(own_width(prog, base, cond), 1))) != 0,
                        );
                        lemma_pair_meaning(prog, base, st1, m, then_e, else_e, w, w);
                        lemma_pair_meaning(prog, st1, st1, m, then_e, else_e, w, w);
                        if let Ok((st3, (t, f))) = lower_pair(prog, st1, then_e, else_e, w, w) {
                            lemma_keeps(base, st1, st3, c, m, test, rw, iw);
                            assert(st3.d.graph.widths[c as int] == st1.d.graph.widths[c as int]);
                            lemma_mux(st3.d.graph, rw, iw, m.regs, m.ins, c, t, f);
                            crate::bits::lemma_flag(test != 0);
                            lemma_added(prog, base, st3, st3.d.graph.mux(c, t, f), w, m);
                        }
                    }
                }
            }
        }
    }
}

// --- laws --------------------------------------------------------------------------------------

/// An expression without calls is lowered to a node that shows what the expression
/// means, for whatever the registers hold and the inputs read at the start of the
/// cycle; all else stays as it was.
pub proof fn lemma_expression_kept(prog: ProgramTree, st: Low, m: Moment, e: ExprTree, expected: Option<u32>)
    requires
        prog_ok(prog),
        sound(prog, st),
        st.roomy(),
        regs_fit(signal_widths(st.d.regs), m.regs),
        expr_ok(e),
        !splits(e),
        expected matches Some(w) ==> width_ok(w),
    ensures
        match lower_expr(prog, st, e, expected) {
            Ok((later, v)) => grew(st, later) && later.d.graph.value(m.regs, m.ins, v) == meant(
                prog,
                st,
                m,
                e,
                expected,
            ),
            Err(_) => true,
        },
{
    lemma_expr_meaning(prog, st, st, m, e, expected);
}

/// The same, with other expressions lowered before.
pub proof fn lemma_expression_kept_behind(
    prog: ProgramTree,
    base: Low,
    st: Low,
    m: Moment,
    e: ExprTree,
    expected: Option<u32>,
)
    requires
        prog_ok(prog),
        sound(prog, base),
        sound(prog, st),
        st.roomy(),
        grew(base, st),
        regs_fit(signal_widths(base.d.regs), m.regs),
        expr_ok(e),
        !splits(e),
        expected matches Some(w) ==> width_ok(w),
    ensures
        match lower_expr(prog, st, e, expected) {
            Ok((later, v)) => grew(base, later) && v < later.d.graph.len() && later.d.graph.value(
                m.regs,
                m.ins,
                v,
            ) == meant(prog, base, m, e, expected),
            Err(_) => true,
        },
{
    lemma_expr_meaning(prog, base, st, m, e, expected);
}

/// Assignments take effect in order: once `name = value` has been lowered, the variable
/// stands for what the value meant before, and every other variable stands for what it
/// did.
pub proof fn lemma_assignment_kept(prog: ProgramTree, st: Low, m: Moment, s: StmtTree, b: Binding)
    requires
        prog_ok(prog),
        sound(prog, st),
        st.roomy(),
        regs_fit(signal_widths(st.d.regs), m.regs),
        s is Assign,
        expr_ok(s->Assign_value),
        !splits(s->Assign_value),
        crate::lower_types::bound_ok(st, b),
    ensures
        match lower_stmt(prog, st, s) {
            Ok((later, _)) => so_far(later, m, b) == if st.lookup(s->Assign_name) == Some(b) {
                meant(prog, st, m, s->Assign_value, Some(st.width_of(b)))
            } else {
                so_far(st, m, b)
            },
            Err(_) => true,
        },
{
    let value = s->Assign_value;
    let name = s->Assign_name;
    lemma_lookup(prog, st, name);
    if let Some(Binding::Reg(r)) = st.lookup(name) {
        let w = st.d.regs[r as int].width;
        lemma_expression_kept(prog, st, m, value, Some(w));
        if let Ok((st1, v)) = lower_expr(prog, st, value, Some(w)) {
            match b {
                Binding::Reg(q) => {
                    if q != r && st.env.contains_key(q) {
                        lemma_value_kept(st.d.graph, st1.d.graph, m.regs, m.ins, st.env[q]);
                    }
                },
                Binding::Input(_) => {},
            }
        }
    }
}

/// A condition is lowered to one bit that says whether the condition is other than
/// zero.
pub proof fn lemma_condition_kept(prog: ProgramTree, st: Low, m: Moment, e: ExprTree)
    requires
        prog_ok(prog),
        sound(prog, st),
        st.roomy(),
        regs_fit(signal_widths(st.d.regs), m.regs),
        expr_ok(e),
        !splits(e),
    ensures
        match lower_cond(prog, st, e) {
            Ok((later, v)) => grew(st, later) && later.d.graph.value(m.regs, m.ins, v) == flag(
                meant(prog, st, m, e, Some(width_or(own_width(prog, st, e), 1))) != 0,
            ),
            Err(_) => true,
        },
{
    lemma_cond_meaning(prog, st, st, m, e);
}

/// A declaration brings a name that stands for what its initial value meant, and every
/// other variable stands for what it did.
pub proof fn lemma_declaration_kept(prog: ProgramTree, st: Low, m: Moment, s: StmtTree, b: Binding)
    requires
        prog_ok(prog),
        sound(prog, st),
        st.roomy(),
        regs_fit(signal_widths(st.d.regs), m.regs),
        s is Var,
        s->Var_ty matches Some(t) ==> width_ok(t.width),
        expr_ok(s->Var_init),
        !splits(s->Var_init),
        crate::lower_types::bound_ok(st, b),
    ensures
        match lower_stmt(prog, st, s) {
            Ok((later, _)) => {
                let w = match s->Var_ty {
                    Some(t) => t.width,
                    None => width_or(own_width(prog, st, s->Var_init), 1),
                };
                &&& so_far(later, m, b) == so_far(st, m, b)
                &&& match later.lookup(s->Var_name) {
                    Some(x) => later.width_of(x) == w && so_far(later, m, x) == meant(
                        prog,
                        st,
                        m,
                        s->Var_init,
                        Some(w),
                    ),
                    None => false,
                }
            },
            Err(_) => true,
        },
{
    let init = s->Var_init;
    let name = s->Var_name;
    lemma_infer(prog, st, init);
    let w = match s->Var_ty {
        Some(t) => t.width,
        None => width_or(own_width(prog, st, init), 1),
    };
    if lower_stmt(prog, st, s) is Ok {
        lemma_expression_kept(prog, st, m, init, Some(w));
        lemma_expr(prog, st, init, Some(w));
        if let Ok((st1, v)) = lower_expr(prog, st, init, Some(w)) {
            let (st2, r) = st1.declare(name, w);
            let later = st2.write(r, v);
            let n = st1.scopes.len() - 1;
            let last = later.scopes[n];
            assert(last.last() == (name, Binding::Reg(r)));
            reveal_with_fuel(find, 2);
            reveal_with_fuel(find_in, 2);
            assert(find_in(last, name, last.len() as int) == Some(Binding::Reg(r)));
            assert(later.lookup(name) == Some(Binding::Reg(r)));
            match b {
                Binding::Reg(q) => {
                    assert(q != r);
                    if st.env.contains_key(q) {
                        lemma_value_kept(st.d.graph, st1.d.graph, m.regs, m.ins, st.env[q]);
                    }
                },
                Binding::Input(_) => {},
            }
        }
    }
}

/// At the end of the cycle every register takes the value so far of its variable: the
/// writes that are pending when a block closes, committed together, leave in the first
/// `n` registers what they stood for.
pub proof fn lemma_commit_kept(prog: ProgramTree, d: &Design, st: Low, m: Moment, n: nat)
    requires
        sound(prog, st),
        st.d.graph.prefix_of(d.graph()),
        d.reg_widths() == signal_widths(st.d.regs),
        regs_fit(signal_widths(st.d.regs), m.regs),
        n <= st.d.regs.len(),
        st.d.regs.len() <= u32::MAX,
    ensures
        ({
            let after = commit(d, m.regs, m.ins, pending(st.env, st.d.graph, n));
            &&& after.len() == m.regs.len()
            &&& forall|r: RegId| r < n ==> #[trigger] after[r as int] == so_far(st, m, Binding::Reg(r))
            &&& forall|r: int| n <= r < after.len() ==> #[trigger] after[r] == m.regs[r]
        }),
    decreases n,
{
    if n > 0 {
        lemma_commit_kept(prog, d, st, m, (n - 1) as nat);
        let r = (n - 1) as u32;
        let before = pending(st.env, st.d.graph, (n - 1) as nat);
        let g = st.d.graph;
        let rw = signal_widths(st.d.regs);
        let iw = signal_widths(st.d.inputs);
        if st.env.contains_key(r) {
            let v = st.env[r];
            lemma_value_kept(g, d.graph(), m.regs, m.ins, v);
            lemma_value_fits(g, rw, iw, m.regs, m.ins, v);
            assert(d.reg_widths()[r as int] == rw[r as int]);
            if g.node(v) != Node::Reg(r) {
                let now = pending(st.env, g, n);
                assert(now.drop_last() =~= before);
                assert(now.last() == (r, v));
            } else {
                lemma_value(g, m.regs, m.ins, v);
            }
        }
    }
}

} // verus!
