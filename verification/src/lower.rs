//! AST -> design lowering, with bit-width checking and function inlining.
//!
//! # Evaluation order
//!
//! Ohm evaluates **eagerly**: both operands of `&&` and `||`, and both arms of
//! `? :`, are always evaluated. This matches how the hardware behaves (every
//! datapath is physically present and always computing) and avoids pretending
//! to offer short-circuiting that a combinational circuit cannot provide.
//!
//! # Calls and cycle boundaries
//!
//! Functions are inlined; recursion is rejected. Every call unconditionally
//! ends the current basic block. That uniform rule is what makes cross-cycle
//! spilling correct: when an operand contains a call we know a cycle boundary
//! *will* occur, so we spill the already-computed operand into a temporary
//! register and read it back on the far side.
use crate::ast::{
    predicate, symbol_text, BinOp, Block, Expr, ExprTree, Func, FuncTree, ParamTree, PortDir,
    Program, ProgramTree, Stmt, StmtTree, UnOp,
};
use crate::bitblast::synthesizable;
use crate::graph::{lemma_unseen_update, unseen};
use crate::ir::{
    block_tree, same_frame, BasicBlock, BlockId, BlockTree, Design, DesignTree, Graph, Node, NodeId,
    RegId, Signal, Term,
};
use crate::lexer::{span_text, Span};
use crate::lower_types::{
    args_result, bound_ok, expr_ok, func_ok, lemma_add_block, lemma_args, lemma_binary,
    lemma_bind_params, lemma_block, lemma_call, lemma_close, lemma_cond, lemma_depth, lemma_enter,
    lemma_enter_call, lemma_expr, lemma_follows_refl, lemma_fresh_temp, lemma_func_index,
    lemma_enter_main, lemma_growth, lemma_infer, lemma_leave_call, lemma_lookup, lemma_pair,
    lemma_popped, lemma_ports, lemma_pruned, lemma_raw, lemma_scope, lemma_sizes, lemma_spill,
    lemma_stmt, lemma_synthesizable, lemma_write, near, design_ok, ports_ok, prog_ok, sound,
    stmt_ok, stmts_ok, width_ok, write_ok, writes_fit,
};
use crate::parser::trees;
use crate::text::{decimal, push_decimal, same_text};
use std::collections::HashMap;
use vstd::prelude::*;
use vstd::string::*;

verus! {

broadcast use vstd::std_specs::hash::group_hash_axioms;

pub type LowerResult<T> = Result<T, String>;

#[derive(Debug, Clone, Copy, PartialEq, Eq, Structural)]
pub enum Binding {
    /// A mutable variable or an output port, backed by a register.
    Reg(RegId),
    /// An input port: read-only, combinationally available every cycle.
    Input(u32),
}

#[derive(Debug, Clone, Copy, PartialEq, Eq, Structural)]
pub struct ReturnTarget {
    pub slot: Option<RegId>,
    pub block: BlockId,
}

// --- sizes of trees ------------------------------------------------------

pub open spec fn expr_size(e: ExprTree) -> nat
    decreases e, 0nat,
{
    match e {
        ExprTree::Num { .. } => 1,
        ExprTree::Ident { .. } => 1,
        ExprTree::Unary { operand, .. } => 1 + expr_size(*operand),
        ExprTree::Binary { lhs, rhs, .. } => 1 + expr_size(*lhs) + expr_size(*rhs),
        ExprTree::Call { args, .. } => 2 + args_size(args, 0),
        ExprTree::Cast { operand, .. } => 1 + expr_size(*operand),
        ExprTree::Ternary { cond, then_e, else_e, .. } => 1 + expr_size(*cond) + expr_size(*then_e)
            + expr_size(*else_e),
    }
}

/// The size of the arguments from `i` on.
pub open spec fn args_size(args: Seq<ExprTree>, i: nat) -> nat
    decreases args, args.len() - i,
{
    if i >= args.len() {
        0
    } else {
        expr_size(args[i as int]) + args_size(args, i + 1)
    }
}

pub open spec fn stmt_size(s: StmtTree) -> nat
    decreases s, 0nat,
{
    match s {
        StmtTree::Var { init, .. } => 1 + expr_size(init),
        StmtTree::Assign { value, .. } => 1 + expr_size(value),
        StmtTree::If { cond, then_b, else_b, .. } => 1 + expr_size(cond) + stmts_size(then_b, 0) + (
        match else_b {
            Some(b) => stmts_size(b, 0),
            None => 0,
        }),
        StmtTree::While { cond, body, .. } => 1 + expr_size(cond) + stmts_size(body, 0),
        StmtTree::Return { value, .. } => match value {
            Some(e) => 1 + expr_size(e),
            None => 1,
        },
        StmtTree::Nested(b) => 1 + stmts_size(b, 0),
    }
}

/// The size of the statements from `i` on.
pub open spec fn stmts_size(b: Seq<StmtTree>, i: nat) -> nat
    decreases b, b.len() - i,
{
    if i >= b.len() {
        1
    } else {
        1 + stmt_size(b[i as int]) + stmts_size(b, i + 1)
    }
}

// --- the state of lowering -----------------------------------------------

/// Where lowering stands.
#[verifier::ext_equal]
pub struct Low {
    pub d: DesignTree,
    /// What names mean, innermost scope last; in a scope the last one counts.
    pub scopes: Seq<Seq<(Seq<char>, Binding)>>,
    /// Values written so far in the current cycle, not yet committed.
    pub env: Map<RegId, NodeId>,
    pub cur: BlockId,
    /// The functions being inlined, outermost first.
    pub stack: Seq<Seq<char>>,
    pub rets: Seq<ReturnTarget>,
    pub temps: nat,
}

pub type Lowered<T> = Result<(Low, T), Seq<char>>;

/// The last binding of `name` among the first `n` of a scope.
pub open spec fn find_in(scope: Seq<(Seq<char>, Binding)>, name: Seq<char>, n: int) -> Option<
    Binding,
>
    decreases n,
{
    if n <= 0 {
        None
    } else if scope[n - 1].0 == name {
        Some(scope[n - 1].1)
    } else {
        find_in(scope, name, n - 1)
    }
}

/// What `name` means, seen from the innermost of the first `n` scopes.
pub open spec fn find(scopes: Seq<Seq<(Seq<char>, Binding)>>, name: Seq<char>, n: int) -> Option<
    Binding,
>
    decreases n,
{
    if n <= 0 {
        None
    } else {
        match find_in(scopes[n - 1], name, scopes[n - 1].len() as int) {
            Some(b) => Some(b),
            None => find(scopes, name, n - 1),
        }
    }
}

/// The first function called `name`, from `i` on.
pub open spec fn func_index(prog: ProgramTree, name: Seq<char>, i: int) -> Option<int>
    decreases prog.funcs.len() - i,
{
    if i < 0 || i >= prog.funcs.len() {
        None
    } else if prog.funcs[i].name == name {
        Some(i)
    } else {
        func_index(prog, name, i + 1)
    }
}

/// The pending writes to the first `n` registers, in order, without those that
/// write a register's own value.
pub open spec fn pending(env: Map<RegId, NodeId>, g: Graph, n: nat) -> Seq<(RegId, NodeId)>
    decreases n,
{
    if n == 0 {
        seq![]
    } else {
        let r = (n - 1) as u32;
        let before = pending(env, g, (n - 1) as nat);
        if env.contains_key(r) && g.node(env[r]) != Node::Reg(r) {
            before.push((r, env[r]))
        } else {
            before
        }
    }
}

pub open spec fn too_large() -> Seq<char> {
    "program is too large"@
}

/// How many more nodes, registers and blocks there always is room for. Ids are `u32`, and
/// a step of lowering builds fewer than this many of each before it is checked again.
pub const SPARE: usize = 32;

impl Low {
    pub open spec fn lookup(self, name: Seq<char>) -> Option<Binding> {
        find(self.scopes, name, self.scopes.len() as int)
    }

    pub open spec fn width_of(self, b: Binding) -> u32 {
        match b {
            Binding::Reg(r) => self.d.regs[r as int].width,
            Binding::Input(i) => self.d.inputs[i as int].width,
        }
    }

    /// Is there room to go on?
    pub open spec fn roomy(self) -> bool {
        &&& self.d.graph.len() + SPARE <= u32::MAX
        &&& self.d.regs.len() + SPARE <= u32::MAX
        &&& self.d.inputs.len() + SPARE <= u32::MAX
        &&& self.d.blocks.len() + SPARE <= u32::MAX
    }

    /// Use a node that was just built.
    pub open spec fn with(self, r: (Graph, NodeId)) -> (Low, NodeId) {
        (Low { d: DesignTree { graph: r.0, ..self.d }, ..self }, r.1)
    }

    pub open spec fn add_reg(self, name: Seq<char>, width: u32) -> (Low, RegId) {
        (
            Low {
                d: DesignTree { regs: self.d.regs.push(Signal { name, width }), ..self.d },
                ..self
            },
            self.d.regs.len() as u32,
        )
    }

    pub open spec fn add_block(self, label: Seq<char>) -> (Low, BlockId) {
        (
            Low {
                d: DesignTree {
                    blocks: self.d.blocks.push(
                        BlockTree { label, assigns: seq![], term: Term::Halt },
                    ),
                    ..self.d
                },
                ..self
            },
            self.d.blocks.len() as u32,
        )
    }

    pub open spec fn bind(self, name: Seq<char>, b: Binding) -> Low {
        let n = self.scopes.len() - 1;
        Low { scopes: self.scopes.update(n, self.scopes[n].push((name, b))), ..self }
    }

    /// A register for a variable, named after it and the number of registers.
    pub open spec fn declare(self, name: Seq<char>, width: u32) -> (Low, RegId) {
        let (st, r) = self.add_reg(name + "#"@ + decimal(self.d.regs.len()), width);
        (st.bind(name, Binding::Reg(r)), r)
    }

    /// A register for an intermediate value.
    pub open spec fn fresh_temp(self, width: u32) -> (Low, RegId) {
        (Low { temps: self.temps + 1, ..self }).add_reg("$t"@ + decimal(self.temps + 1), width)
    }

    pub open spec fn write(self, r: RegId, v: NodeId) -> Low {
        Low { env: self.env.insert(r, v), ..self }
    }

    /// Flush pending register writes into the current block and close it.
    pub open spec fn close(self, term: Term) -> Low {
        let b = self.d.blocks[self.cur as int];
        Low {
            d: DesignTree {
                blocks: self.d.blocks.update(
                    self.cur as int,
                    BlockTree {
                        label: b.label,
                        assigns: pending(self.env, self.d.graph, self.d.regs.len()),
                        term,
                    },
                ),
                ..self.d
            },
            env: Map::empty(),
            ..self
        }
    }

    /// Go on in another block, with nothing pending.
    pub open spec fn enter(self, b: BlockId) -> Low {
        Low { cur: b, env: Map::empty(), ..self }
    }

    /// Read the current value of a register within this cycle.
    pub open spec fn read_reg(self, r: RegId) -> (Low, NodeId) {
        if self.env.contains_key(r) {
            (self, self.env[r])
        } else {
            self.with(self.d.graph.intern(Node::Reg(r), self.d.regs[r as int].width))
        }
    }

    /// Park a value in a fresh register and read it back after the cycle.
    pub open spec fn spill(self, v: NodeId) -> (Low, NodeId) {
        let (st, t) = self.fresh_temp(self.d.graph.width(v));
        let st2 = st.write(t, v);
        st2.with(st2.d.graph.intern(Node::Reg(t), st2.d.regs[t as int].width))
    }

    pub open spec fn push_scope(self, scope: Seq<(Seq<char>, Binding)>) -> Low {
        Low { scopes: self.scopes.push(scope), ..self }
    }

    pub open spec fn pop_scope(self) -> Low {
        Low { scopes: self.scopes.drop_last(), ..self }
    }
}

/// Succeed while there is room.
pub open spec fn guard<T>(st: Low, v: T) -> Lowered<T> {
    if st.roomy() {
        Ok((st, v))
    } else {
        Err(too_large())
    }
}

// --- widths --------------------------------------------------------------

pub open spec fn unknown_name(span: Span, name: Seq<char>) -> Seq<char> {
    span_text(span) + ": unknown name `"@ + name + "`"@
}

pub open spec fn unknown_function(span: Span, name: Seq<char>) -> Seq<char> {
    span_text(span) + ": unknown function `"@ + name + "`"@
}

/// The first of two widths that is there.
pub open spec fn either(a: Option<u32>, b: Option<u32>) -> Option<u32> {
    if a is Some {
        a
    } else {
        b
    }
}

pub open spec fn width_or(a: Option<u32>, w: u32) -> u32 {
    match a {
        Some(x) => x,
        None => w,
    }
}

/// The width an expression forces on its own, if any. `None` means the
/// expression is width-polymorphic (a bare integer literal).
pub open spec fn infer(prog: ProgramTree, st: Low, e: ExprTree) -> Result<Option<u32>, Seq<char>>
    decreases e,
{
    match e {
        ExprTree::Num { .. } => Ok(None),
        ExprTree::Ident { name, span } => match st.lookup(name) {
            Some(b) => Ok(Some(st.width_of(b))),
            None => Err(unknown_name(span, name)),
        },
        ExprTree::Unary { op, operand, .. } => if op == UnOp::Not {
            Ok(Some(1u32))
        } else {
            infer(prog, st, *operand)
        },
        ExprTree::Binary { op, lhs, rhs, .. } => if predicate(op) {
            Ok(Some(1u32))
        } else if op is Shl || op is Shr {
            infer(prog, st, *lhs)
        } else {
            match infer(prog, st, *lhs) {
                Ok(a) => match infer(prog, st, *rhs) {
                    Ok(b) => Ok(either(a, b)),
                    Err(m) => Err(m),
                },
                Err(m) => Err(m),
            }
        },
        ExprTree::Call { name, span, .. } => match func_index(prog, name, 0) {
            Some(i) => Ok(
                match prog.funcs[i].ret {
                    Some(t) => Some(t.width),
                    None => None,
                },
            ),
            None => Err(unknown_function(span, name)),
        },
        ExprTree::Cast { ty, .. } => Ok(Some(ty.width)),
        ExprTree::Ternary { then_e, else_e, .. } => match infer(prog, st, *then_e) {
            Ok(a) => match infer(prog, st, *else_e) {
                Ok(b) => Ok(either(a, b)),
                Err(m) => Err(m),
            },
            Err(m) => Err(m),
        },
    }
}

/// Does evaluating this expression cross a cycle boundary?
/// Every call does, by construction.
pub open spec fn splits(e: ExprTree) -> bool
    decreases e,
{
    match e {
        ExprTree::Num { .. } => false,
        ExprTree::Ident { .. } => false,
        ExprTree::Call { .. } => true,
        ExprTree::Unary { operand, .. } => splits(*operand),
        ExprTree::Cast { operand, .. } => splits(*operand),
        ExprTree::Binary { lhs, rhs, .. } => splits(*lhs) || splits(*rhs),
        ExprTree::Ternary { cond, then_e, else_e, .. } => splits(*cond) || splits(*then_e)
            || splits(*else_e),
    }
}

/// Does one of the arguments from `i` on cross a cycle boundary?
pub open spec fn later_splits(args: Seq<ExprTree>, i: int) -> bool {
    exists|k: int| i <= k < args.len() && splits(#[trigger] args[k])
}

/// The natural width for a shift amount: enough bits to name any bit position.
pub open spec fn shift_bits(w: u32) -> u32 {
    if w <= 2 {
        1
    } else if w <= 4 {
        2
    } else if w <= 8 {
        3
    } else if w <= 16 {
        4
    } else if w <= 32 {
        5
    } else {
        6
    }
}

// --- expressions ---------------------------------------------------------

/// How much deeper inlining can go.
pub open spec fn depth(prog: ProgramTree, st: Low) -> nat {
    if st.stack.len() > prog.funcs.len() {
        0
    } else {
        (prog.funcs.len() + 1 - st.stack.len()) as nat
    }
}

pub open spec fn lower_expr(prog: ProgramTree, st: Low, e: ExprTree, expected: Option<u32>) -> Lowered<
    NodeId,
>
    decreases depth(prog, st), expr_size(e), 3int,
{
    match lower_raw(prog, st, e, expected) {
        Ok((st1, v)) => match expected {
            Some(w) => {
                let (st2, r) = st1.with(st1.d.graph.resize(v, w));
                guard(st2, r)
            },
            None => guard(st1, v),
        },
        Err(m) => Err(m),
    }
}

/// An expression used as a condition, reduced to one bit.
pub open spec fn lower_cond(prog: ProgramTree, st: Low, e: ExprTree) -> Lowered<NodeId>
    decreases depth(prog, st), expr_size(e), 4int,
{
    match infer(prog, st, e) {
        Ok(w) => match lower_expr(prog, st, e, Some(width_or(w, 1))) {
            Ok((st1, v)) => {
                let (st2, r) = st1.with(st1.d.graph.any(v));
                guard(st2, r)
            },
            Err(m) => Err(m),
        },
        Err(m) => Err(m),
    }
}

/// Two operands left to right, the first spilled across any cycle boundary that
/// the second introduces.
pub open spec fn lower_pair(
    prog: ProgramTree,
    st: Low,
    lhs: ExprTree,
    rhs: ExprTree,
    lw: u32,
    rw: u32,
) -> Lowered<(NodeId, NodeId)>
    decreases depth(prog, st), expr_size(lhs) + expr_size(rhs), 4int,
{
    match lower_expr(prog, st, lhs, Some(lw)) {
        Ok((st1, l)) => {
            let (st2, l2) = if splits(rhs) {
                st1.spill(l)
            } else {
                (st1, l)
            };
            if st2.roomy() && depth(prog, st2) <= depth(prog, st) {
                match lower_expr(prog, st2, rhs, Some(rw)) {
                    Ok((st3, r)) => Ok((st3, (l2, r))),
                    Err(m) => Err(m),
                }
            } else {
                Err(too_large())
            }
        },
        Err(m) => Err(m),
    }
}

pub open spec fn cannot_infer(span: Span, what: Seq<char>) -> Seq<char> {
    span_text(span) + ": cannot infer width of `"@ + what + "`"@
}

pub open spec fn lower_raw(prog: ProgramTree, st: Low, e: ExprTree, expected: Option<u32>) -> Lowered<
    NodeId,
>
    decreases depth(prog, st), expr_size(e), 2int,
{
    match e {
        ExprTree::Num { value, span } => match expected {
            None => Err(
                span_text(span) + ": cannot infer the width of literal `"@ + decimal(value as nat)
                    + "`; add a cast, e.g. `"@ + decimal(value as nat) + " as u8`"@,
            ),
            Some(w) => if w < 64 && value >= 1u64 << (w as u64) {
                Err(
                    span_text(span) + ": literal `"@ + decimal(value as nat)
                        + "` does not fit in u"@ + decimal(w as nat),
                )
            } else {
                Ok(st.with(st.d.graph.constant(value, w)))
            },
        },
        ExprTree::Ident { name, span } => match st.lookup(name) {
            Some(Binding::Reg(r)) => Ok(st.read_reg(r)),
            Some(Binding::Input(i)) => Ok(
                st.with(st.d.graph.intern(Node::Input(i), st.d.inputs[i as int].width)),
            ),
            None => Err(unknown_name(span, name)),
        },
        ExprTree::Cast { operand, ty, .. } => match infer(prog, st, *operand) {
            Ok(inner) => match lower_expr(
                prog,
                st,
                *operand,
                Some(width_or(inner, ty.width)),
            ) {
                Ok((st1, v)) => Ok(st1.with(st1.d.graph.resize(v, ty.width))),
                Err(m) => Err(m),
            },
            Err(m) => Err(m),
        },
        ExprTree::Unary { op, operand, span } => match infer(prog, st, *operand) {
            Ok(inner) => match unary_width(op, expected, inner) {
                Some(w) => match lower_expr(prog, st, *operand, Some(w)) {
                    Ok((st1, v)) => Ok(unary_node(st1, op, v, w)),
                    Err(m) => Err(m),
                },
                None => Err(
                    cannot_infer(
                        span,
                        if op == UnOp::Neg {
                            "-"@
                        } else {
                            "~"@
                        },
                    ),
                ),
            },
            Err(m) => Err(m),
        },
        ExprTree::Binary { op, lhs, rhs, span } => lower_binary(
            prog,
            st,
            op,
            *lhs,
            *rhs,
            expected,
            span,
        ),
        ExprTree::Ternary { cond, then_e, else_e, span } => match infer(prog, st, *then_e) {
            Ok(a) => match infer(prog, st, *else_e) {
                Ok(b) => match either(expected, either(a, b)) {
                    Some(w) => match lower_cond(prog, st, *cond) {
                        Ok((st1, c)) => {
                            let (st2, c2) = if splits(*then_e) || splits(*else_e) {
                                st1.spill(c)
                            } else {
                                (st1, c)
                            };
                            if st2.roomy() && depth(prog, st2) <= depth(prog, st) {
                                match lower_pair(prog, st2, *then_e, *else_e, w, w) {
                                    Ok((st3, (t, f))) => Ok(st3.with(st3.d.graph.mux(c2, t, f))),
                                    Err(m) => Err(m),
                                }
                            } else {
                                Err(too_large())
                            }
                        },
                        Err(m) => Err(m),
                    },
                    None => Err(cannot_infer(span, "? :"@)),
                },
                Err(m) => Err(m),
            },
            Err(m) => Err(m),
        },
        ExprTree::Call { name, args, span } => lower_call(prog, st, name, args, span),
    }
}

/// The width at which the operand of a unary operator is evaluated.
pub open spec fn unary_width(op: UnOp, expected: Option<u32>, inner: Option<u32>) -> Option<u32> {
    match op {
        UnOp::Not => Some(width_or(inner, 1)),
        _ => either(expected, inner),
    }
}

/// The node of a unary operation on `v`, which has width `w`.
#[verifier::opaque]
pub open spec fn unary_node(st: Low, op: UnOp, v: NodeId, w: u32) -> (Low, NodeId) {
    match op {
        UnOp::Not => {
            let (st2, nz) = st.with(st.d.graph.any(v));
            st2.with(st2.d.graph.not(nz))
        },
        UnOp::BitNot => st.with(st.d.graph.not(v)),
        UnOp::Neg => {
            let (st2, z) = st.with(st.d.graph.constant(0, w));
            st2.with(st2.d.graph.sub(z, v))
        },
    }
}

/// The node of `&&` or `||`: each side is reduced to one bit.
#[verifier::opaque]
pub open spec fn logic_node(st: Low, op: BinOp, l: NodeId, r: NodeId) -> (Low, NodeId) {
    let (st2, la) = st.with(st.d.graph.any(l));
    let (st3, ra) = st2.with(st2.d.graph.any(r));
    st3.with(
        if op is LAnd {
            st3.d.graph.and(la, ra)
        } else {
            st3.d.graph.or(la, ra)
        },
    )
}

/// The node of a comparison.
#[verifier::opaque]
pub open spec fn compare_node(g: Graph, op: BinOp, l: NodeId, r: NodeId) -> (Graph, NodeId) {
    match op {
        BinOp::Eq => g.eq(l, r),
        BinOp::Ne => g.ne(l, r),
        BinOp::Lt => g.lt(l, r),
        BinOp::Le => g.le(l, r),
        BinOp::Gt => g.lt(r, l),
        _ => g.ge(l, r),
    }
}

/// The node of an arithmetic or bitwise operation.
#[verifier::opaque]
pub open spec fn arith_node(g: Graph, op: BinOp, l: NodeId, r: NodeId) -> (Graph, NodeId) {
    match op {
        BinOp::Add => g.add(l, r),
        BinOp::Sub => g.sub(l, r),
        BinOp::Mul => g.mul(l, r),
        BinOp::And => g.and(l, r),
        BinOp::Or => g.or(l, r),
        _ => g.xor(l, r),
    }
}

pub open spec fn lower_binary(
    prog: ProgramTree,
    st: Low,
    op: BinOp,
    lhs: ExprTree,
    rhs: ExprTree,
    expected: Option<u32>,
    span: Span,
) -> Lowered<NodeId>
    decreases depth(prog, st), expr_size(lhs) + expr_size(rhs), 5int,
{
    match infer(prog, st, lhs) {
        Err(m) => Err(m),
        Ok(a) => if op is LAnd || op is LOr {
            match infer(prog, st, rhs) {
                Err(m) => Err(m),
                Ok(b) => match lower_pair(prog, st, lhs, rhs, width_or(a, 1), width_or(b, 1)) {
                    Err(m) => Err(m),
                    Ok((st1, (l, r))) => Ok(logic_node(st1, op, l, r)),
                },
            }
        } else if op is Shl || op is Shr {
            match either(expected, a) {
                None => Err(cannot_infer(span, symbol_text(op))),
                Some(w) => match infer(prog, st, rhs) {
                    Err(m) => Err(m),
                    // The shift amount is independent of the value's width.
                    Ok(b) => match lower_pair(
                        prog,
                        st,
                        lhs,
                        rhs,
                        w,
                        width_or(b, shift_bits(w)),
                    ) {
                        Err(m) => Err(m),
                        Ok((st1, (l, r))) => Ok(
                            st1.with(
                                if op is Shl {
                                    st1.d.graph.shl(l, r)
                                } else {
                                    st1.d.graph.shr(l, r)
                                },
                            ),
                        ),
                    },
                },
            }
        } else {
            match infer(prog, st, rhs) {
                Err(m) => Err(m),
                Ok(b) => if predicate(op) {
                    // Comparison operands must agree with each other, but the
                    // result width is independent of them.
                    match either(a, b) {
                        None => Err(
                            span_text(span) + ": cannot infer operand width for `"@ + symbol_text(
                                op,
                            ) + "`; both sides are bare literals"@,
                        ),
                        Some(w) => match lower_pair(prog, st, lhs, rhs, w, w) {
                            Err(m) => Err(m),
                            Ok((st1, (l, r))) => Ok(
                                st1.with(compare_node(st1.d.graph, op, l, r)),
                            ),
                        },
                    }
                } else {
                    match either(expected, either(a, b)) {
                        None => Err(cannot_infer(span, symbol_text(op))),
                        Some(w) => match lower_pair(prog, st, lhs, rhs, w, w) {
                            Err(m) => Err(m),
                            Ok((st1, (l, r))) => Ok(st1.with(arith_node(st1.d.graph, op, l, r))),
                        },
                    }
                },
            }
        },
    }
}

/// The names of a chain of calls.
pub open spec fn chain_text(names: Seq<Seq<char>>) -> Seq<char>
    decreases names.len(),
{
    if names.len() == 0 {
        seq![]
    } else if names.len() == 1 {
        names[0]
    } else {
        chain_text(names.drop_last()) + " -> "@ + names.last()
    }
}

/// Arguments from `i` on, left to right, each spilled across any cycle boundary
/// that a later one introduces.
pub open spec fn lower_args(
    prog: ProgramTree,
    st: Low,
    params: Seq<ParamTree>,
    args: Seq<ExprTree>,
    i: nat,
    vals: Seq<NodeId>,
) -> Lowered<Seq<NodeId>>
    decreases depth(prog, st), args_size(args, i), args.len() + 5 - i,
{
    if i >= args.len() || i >= params.len() {
        Ok((st, vals))
    } else {
        match lower_expr(prog, st, args[i as int], Some(params[i as int].ty.width)) {
            Ok((st1, v)) => {
                let (st2, v2) = if later_splits(args, i as int + 1) {
                    st1.spill(v)
                } else {
                    (st1, v)
                };
                if st2.roomy() && depth(prog, st2) <= depth(prog, st) {
                    lower_args(prog, st2, params, args, i + 1, vals.push(v2))
                } else {
                    Err(too_large())
                }
            },
            Err(m) => Err(m),
        }
    }
}

/// Registers for the first `n` parameters, written with the arguments, and the
/// scope that names them.
pub open spec fn bind_params(
    st: Low,
    params: Seq<ParamTree>,
    vals: Seq<NodeId>,
    n: nat,
) -> Lowered<Seq<(Seq<char>, Binding)>>
    decreases n,
{
    if n == 0 {
        Ok((st, seq![]))
    } else {
        match bind_params(st, params, vals, (n - 1) as nat) {
            Ok((st1, frame)) => {
                let p = params[n - 1];
                let (st2, r) = st1.fresh_temp(p.ty.width);
                guard(st2.write(r, vals[n - 1]), frame.push((p.name, Binding::Reg(r))))
            },
            Err(m) => Err(m),
        }
    }
}

/// A register for the result, where there is one.
pub open spec fn result_slot(st: Low, f: FuncTree) -> (Low, Option<RegId>) {
    match f.ret {
        Some(t) => {
            let (st1, r) = st.fresh_temp(t.width);
            (st1, Some(r))
        },
        None => (st, None),
    }
}

/// The state in which the body of `f` is lowered, and the block that follows it.
pub open spec fn enter_call(
    st: Low,
    name: Seq<char>,
    frame: Seq<(Seq<char>, Binding)>,
    slot: Option<RegId>,
) -> (Low, BlockId) {
    let (st1, body_block) = st.add_block("call."@ + name);
    let (st2, ret_block) = st1.add_block("ret."@ + name);
    let st3 = st2.close(Term::Jump(body_block)).enter(body_block).push_scope(frame);
    (
        Low {
            stack: st3.stack.push(name),
            rets: st3.rets.push(ReturnTarget { slot, block: ret_block }),
            ..st3
        },
        ret_block,
    )
}

/// Leave the body of a call: fall off its end into the block that follows.
pub open spec fn leave_call(st: Low, ret_block: BlockId) -> Low {
    (Low {
        scopes: st.scopes.drop_last(),
        stack: st.stack.drop_last(),
        rets: st.rets.drop_last(),
        ..st
    }).close(Term::Jump(ret_block)).enter(ret_block)
}

pub open spec fn lower_call(
    prog: ProgramTree,
    st: Low,
    name: Seq<char>,
    args: Seq<ExprTree>,
    span: Span,
) -> Lowered<NodeId>
    decreases depth(prog, st), 1 + args_size(args, 0), 1int,
{
    match func_index(prog, name, 0) {
        None => Err(unknown_function(span, name)),
        Some(k) => {
            let f = prog.funcs[k];
            if st.stack.contains(name) {
                Err(
                    span_text(span) + ": recursive call to `"@ + name
                        + "` cannot be synthesised ("@ + chain_text(st.stack.push(name)) + ")"@,
                )
            } else if f.params.len() != args.len() {
                Err(
                    span_text(span) + ": `"@ + name + "` takes "@ + decimal(f.params.len())
                        + " argument(s), got "@ + decimal(args.len()),
                )
            } else {
                match lower_args(prog, st, f.params, args, 0, seq![]) {
                    Err(m) => Err(m),
                    Ok((st1, vals)) => {
                        let (st2, slot) = result_slot(st1, f);
                        match bind_params(st2, f.params, vals, f.params.len()) {
                            Err(m) => Err(m),
                            Ok((st3, frame)) => {
                                let (st4, ret_block) = enter_call(st3, name, frame, slot);
                                if st4.roomy() && depth(prog, st4) < depth(prog, st) {
                                    match lower_block(prog, st4, f.body) {
                                        Err(m) => Err(m),
                                        Ok((st5, _)) => {
                                            let st6 = leave_call(st5, ret_block);
                                            match slot {
                                                Some(r) => Ok(
                                                    st6.with(
                                                        st6.d.graph.intern(
                                                            Node::Reg(r),
                                                            st6.d.regs[r as int].width,
                                                        ),
                                                    ),
                                                ),
                                                None => Ok(st6.with(st6.d.graph.constant(0, 1))),
                                            }
                                        },
                                    }
                                } else {
                                    Err(too_large())
                                }
                            },
                        }
                    },
                }
            }
        },
    }
}

// --- statements ----------------------------------------------------------

/// The statements from `i` on.
pub open spec fn lower_stmts(prog: ProgramTree, st: Low, b: Seq<StmtTree>, i: nat) -> Lowered<()>
    decreases depth(prog, st), stmts_size(b, i), 8int,
{
    if i >= b.len() {
        Ok((st, ()))
    } else {
        match lower_stmt(prog, st, b[i as int]) {
            Ok((st1, _)) => if depth(prog, st1) <= depth(prog, st) {
                lower_stmts(prog, st1, b, i + 1)
            } else {
                Err(too_large())
            },
            Err(m) => Err(m),
        }
    }
}

/// Statements in a scope of their own.
pub open spec fn lower_block(prog: ProgramTree, st: Low, b: Seq<StmtTree>) -> Lowered<()>
    decreases depth(prog, st), stmts_size(b, 0), 9int,
{
    match lower_stmts(prog, st.push_scope(seq![]), b, 0) {
        Ok((st1, _)) => Ok((st1.pop_scope(), ())),
        Err(m) => Err(m),
    }
}

pub open spec fn lower_stmt(prog: ProgramTree, st: Low, s: StmtTree) -> Lowered<()>
    decreases depth(prog, st), stmt_size(s), 7int,
{
    match s {
        StmtTree::Var { ty, name, init, span } => {
            let width: Result<u32, Seq<char>> = match ty {
                Some(t) => Ok(t.width),
                None => match infer(prog, st, init) {
                    Ok(Some(w)) => Ok(w),
                    Ok(None) => Err(
                        span_text(span) + ": cannot infer width of `"@ + name
                            + "`; annotate it, e.g. `var u8 "@ + name + " = ...`"@,
                    ),
                    Err(m) => Err(m),
                },
            };
            match width {
                Ok(w) => match lower_expr(prog, st, init, Some(w)) {
                    Ok((st1, v)) => {
                        let (st2, r) = st1.declare(name, w);
                        guard(st2.write(r, v), ())
                    },
                    Err(m) => Err(m),
                },
                Err(m) => Err(m),
            }
        },
        StmtTree::Assign { name, value, span } => match st.lookup(name) {
            None => Err(span_text(span) + ": unknown variable `"@ + name + "`"@),
            Some(Binding::Input(_)) => Err(
                span_text(span) + ": cannot assign to input port `"@ + name + "`"@,
            ),
            Some(Binding::Reg(r)) => match lower_expr(
                prog,
                st,
                value,
                Some(st.d.regs[r as int].width),
            ) {
                Ok((st1, v)) => Ok((st1.write(r, v), ())),
                Err(m) => Err(m),
            },
        },
        StmtTree::Nested(b) => lower_block(prog, st, b),
        StmtTree::If { cond, then_b, else_b, .. } => match lower_cond(prog, st, cond) {
            Err(m) => Err(m),
            Ok((st1, c)) => {
                let (st2, then_id) = st1.add_block("if.then"@);
                let (st3, else_id) = st2.add_block("if.else"@);
                let (st4, join_id) = st3.add_block("if.join"@);
                let st5 = st4.close(
                    Term::Branch { cond: c, then_b: then_id, else_b: else_id },
                ).enter(then_id);
                if !(st5.roomy() && depth(prog, st5) <= depth(prog, st)) {
                    Err(too_large())
                } else {
                    match lower_block(prog, st5, then_b) {
                        Err(m) => Err(m),
                        Ok((st6, _)) => {
                            let st7 = st6.close(Term::Jump(join_id)).enter(else_id);
                            if !(st7.roomy() && depth(prog, st7) <= depth(prog, st)) {
                                Err(too_large())
                            } else {
                                let other: Lowered<()> = match else_b {
                                    Some(b) => lower_block(prog, st7, b),
                                    None => Ok((st7, ())),
                                };
                                match other {
                                    Err(m) => Err(m),
                                    Ok((st8, _)) => Ok(
                                        (st8.close(Term::Jump(join_id)).enter(join_id), ()),
                                    ),
                                }
                            }
                        },
                    }
                }
            },
        },
        StmtTree::While { cond, body, .. } => {
            let (st1, head) = st.add_block("while.head"@);
            let st2 = st1.close(Term::Jump(head)).enter(head);
            if !(st2.roomy() && depth(prog, st2) <= depth(prog, st)) {
                Err(too_large())
            } else {
                match lower_cond(prog, st2, cond) {
                    Err(m) => Err(m),
                    Ok((st3, c)) => {
                        let (st4, body_id) = st3.add_block("while.body"@);
                        let (st5, exit_id) = st4.add_block("while.exit"@);
                        let st6 = st5.close(
                            Term::Branch { cond: c, then_b: body_id, else_b: exit_id },
                        ).enter(body_id);
                        if !(st6.roomy() && depth(prog, st6) <= depth(prog, st)) {
                            Err(too_large())
                        } else {
                            match lower_block(prog, st6, body) {
                                Err(m) => Err(m),
                                Ok((st7, _)) => Ok(
                                    (st7.close(Term::Jump(head)).enter(exit_id), ()),
                                ),
                            }
                        }
                    },
                }
            }
        },
        StmtTree::Return { value, span } => if st.rets.len() == 0 {
            if value is Some {
                Err(span_text(span) + ": `main` is a proc and cannot return a value"@)
            } else {
                let (st1, b) = st.close(Term::Halt).add_block("after.return"@);
                guard(st1.enter(b), ())
            }
        } else {
            let target = st.rets.last();
            match (value, target.slot) {
                (Some(e), Some(r)) => match lower_expr(
                    prog,
                    st,
                    e,
                    Some(st.d.regs[r as int].width),
                ) {
                    Err(m) => Err(m),
                    Ok((st1, v)) => {
                        let (st2, b) = st1.write(r, v).close(
                            Term::Jump(target.block),
                        ).add_block("after.return"@);
                        guard(st2.enter(b), ())
                    },
                },
                (Some(_), None) => Err(span_text(span) + ": this proc does not return a value"@),
                (None, Some(_)) => Err(span_text(span) + ": expected a return value"@),
                (None, None) => {
                    let (st1, b) = st.close(Term::Jump(target.block)).add_block("after.return"@);
                    guard(st1.enter(b), ())
                },
            }
        },
    }
}

// --- the lowerer ---------------------------------------------------------

pub struct Lowerer<'p> {
    prog: &'p Program,
    d: Design,
    scopes: Vec<Vec<(String, Binding)>>,
    /// Values written so far in the current cycle, not yet committed.
    env: HashMap<RegId, NodeId>,
    cur: BlockId,
    inline_stack: Vec<String>,
    ret_stack: Vec<ReturnTarget>,
    temp_counter: u32,
}

pub open spec fn scope_view(s: Seq<(String, Binding)>) -> Seq<(Seq<char>, Binding)> {
    Seq::new(s.len(), |i: int| (s[i].0@, s[i].1))
}

pub open spec fn scopes_view(s: Seq<Vec<(String, Binding)>>) -> Seq<Seq<(Seq<char>, Binding)>> {
    Seq::new(s.len(), |i: int| scope_view(s[i]@))
}

pub open spec fn names_view(s: Seq<String>) -> Seq<Seq<char>> {
    Seq::new(s.len(), |i: int| s[i]@)
}

/// What an exec step owes to the rules: the same state and value, or the same
/// complaint.
pub open spec fn matches<T>(spec: Lowered<T>, got: Result<T, String>, st: Low) -> bool {
    match spec {
        Ok((s, v)) => got == Ok::<T, String>(v) && st == s,
        Err(m) => got matches Err(e) && e@ == m,
    }
}

pub open spec fn same_text_result<T>(spec: Result<T, Seq<char>>, got: Result<T, String>) -> bool {
    match spec {
        Ok(v) => got == Ok::<T, String>(v),
        Err(m) => got matches Err(e) && e@ == m,
    }
}

proof fn lemma_frame(a: &Design, b: &Design)
    requires
        same_frame(a, b),
    ensures
        b.tree() == (DesignTree { graph: b.graph(), ..a.tree() }),
        a.zero_start() ==> b.zero_start(),
{
    assert(b.tree().regs =~= a.tree().regs);
    assert(b.tree().inputs =~= a.tree().inputs);
    assert(b.tree().outputs =~= a.tree().outputs);
    assert(b.tree().blocks =~= a.tree().blocks);
}

/// `place: a name b`.
fn message(span: Span, a: &str, name: &str, b: &str) -> (s: String)
    ensures
        s@ == span_text(span) + a@ + name@ + b@,
{
    let mut s = span.text();
    s.append(a);
    s.append(name);
    s.append(b);
    s
}

/// Where the first function called `name` stands.
fn find_func(prog: &Program, name: &str) -> (r: Option<usize>)
    ensures
        match r {
            Some(k) => func_index(prog.tree(), name@, 0) == Some(k as int) && k < prog.funcs@.len(),
            None => func_index(prog.tree(), name@, 0) is None,
        },
{
    let mut i: usize = 0;
    while i < prog.funcs.len()
        invariant
            i <= prog.funcs@.len(),
            func_index(prog.tree(), name@, 0) == func_index(prog.tree(), name@, i as int),
        decreases prog.funcs@.len() - i,
    {
        assert(prog.tree().funcs[i as int].name == prog.funcs@[i as int].name@);
        if same_text(prog.funcs[i].name.as_str(), name) {
            return Some(i);
        }
        i = i + 1;
    }
    None
}

fn splits_at(e: &Expr) -> (r: bool)
    ensures
        r == splits(e.tree()),
    decreases e,
{
    match e {
        Expr::Num { .. } | Expr::Ident { .. } => false,
        Expr::Call { .. } => true,
        Expr::Unary { operand, .. } => splits_at(operand),
        Expr::Cast { operand, .. } => splits_at(operand),
        Expr::Binary { lhs, rhs, .. } => splits_at(lhs) || splits_at(rhs),
        Expr::Ternary { cond, then_e, else_e, .. } => splits_at(cond) || splits_at(then_e)
            || splits_at(else_e),
    }
}

/// The natural width for a shift amount: enough bits to name any bit position.
fn shift_width(value_width: u32) -> (w: u32)
    requires
        value_width <= 64,
    ensures
        w == shift_bits(value_width),
{
    let mut w: u32 = 1;
    let mut span: u32 = 2;
    while span < value_width
        invariant
            value_width <= 64,
            1 <= w <= 6,
            (w == 1 && span == 2) || (w == 2 && span == 4) || (w == 3 && span == 8) || (w == 4
                && span == 16) || (w == 5 && span == 32) || (w == 6 && span == 64),
            w > 1 ==> span < 2 * value_width,
        decreases 64 - span,
    {
        w = w + 1;
        span = span * 2;
    }
    w
}

impl<'p> Lowerer<'p> {
    /// Where lowering stands.
    pub closed spec fn state(&self) -> Low {
        Low {
            d: self.d.tree(),
            scopes: scopes_view(self.scopes@),
            env: self.env@,
            cur: self.cur,
            stack: names_view(self.inline_stack@),
            rets: self.ret_stack@,
            temps: self.temp_counter as nat,
        }
    }

    pub closed spec fn program(&self) -> ProgramTree {
        self.prog.tree()
    }

    /// The design is in order, and so is everything around it.
    closed spec fn inv(&self) -> bool {
        &&& self.d.wf()
        &&& self.d.zero_start()
        &&& prog_ok(self.program())
        &&& sound(self.program(), self.state())
    }

    /// The same program, and the invariant still holds.
    closed spec fn kept(&self, later: &Lowerer<'p>) -> bool {
        &&& later.prog == self.prog
        &&& later.d.wf()
        &&& later.d.zero_start()
    }

    fn n_constant(&mut self, value: u64, width: u32) -> (id: NodeId)
        requires
            old(self).d.wf(),
            old(self).d.zero_start(),
            old(self).d.room(1),
        ensures
            old(self).kept(final(self)),
            (final(self).state(), id) == old(self).state().with(old(self).state().d.graph.constant(value, width)),
            id < final(self).d.graph().len(),
    {
        let ghost d0 = self.d;
        let id: u32 = self.d.constant(value, width);
        proof {
            lemma_frame(&d0, &self.d);
        }
        id
    }

    fn n_not(&mut self, a: NodeId) -> (id: NodeId)
        requires
            old(self).d.wf(),
            old(self).d.zero_start(),
            old(self).d.room(1),
            a < old(self).d.graph().len(),
        ensures
            old(self).kept(final(self)),
            (final(self).state(), id) == old(self).state().with(old(self).state().d.graph.not(a)),
            id < final(self).d.graph().len(),
    {
        let ghost d0 = self.d;
        let id: u32 = self.d.not(a);
        proof {
            lemma_frame(&d0, &self.d);
        }
        id
    }

    fn n_any(&mut self, a: NodeId) -> (id: NodeId)
        requires
            old(self).d.wf(),
            old(self).d.zero_start(),
            old(self).d.room(1),
            a < old(self).d.graph().len(),
        ensures
            old(self).kept(final(self)),
            (final(self).state(), id) == old(self).state().with(old(self).state().d.graph.any(a)),
            id < final(self).d.graph().len(),
    {
        let ghost d0 = self.d;
        let id: u32 = self.d.any(a);
        proof {
            lemma_frame(&d0, &self.d);
        }
        id
    }

    fn n_resize(&mut self, a: NodeId, w: u32) -> (id: NodeId)
        requires
            old(self).d.wf(),
            old(self).d.zero_start(),
            old(self).d.room(1),
            a < old(self).d.graph().len(),
        ensures
            old(self).kept(final(self)),
            (final(self).state(), id) == old(self).state().with(old(self).state().d.graph.resize(a, w)),
            id < final(self).d.graph().len(),
    {
        let ghost d0 = self.d;
        let id: u32 = self.d.resize(a, w);
        proof {
            lemma_frame(&d0, &self.d);
        }
        id
    }

    fn n_mux(&mut self, c: NodeId, t: NodeId, f: NodeId) -> (id: NodeId)
        requires
            old(self).d.wf(),
            old(self).d.zero_start(),
            old(self).d.room(1),
            c < old(self).d.graph().len(),
            t < old(self).d.graph().len(),
            f < old(self).d.graph().len(),
        ensures
            old(self).kept(final(self)),
            (final(self).state(), id) == old(self).state().with(old(self).state().d.graph.mux(c, t, f)),
            id < final(self).d.graph().len(),
    {
        let ghost d0 = self.d;
        let id: u32 = self.d.mux(c, t, f);
        proof {
            lemma_frame(&d0, &self.d);
        }
        id
    }

    fn n_and(&mut self, a: NodeId, b: NodeId) -> (id: NodeId)
        requires
            old(self).d.wf(),
            old(self).d.zero_start(),
            old(self).d.room(1),
            a < old(self).d.graph().len(),
            b < old(self).d.graph().len(),
        ensures
            old(self).kept(final(self)),
            (final(self).state(), id) == old(self).state().with(old(self).state().d.graph.and(a, b)),
            id < final(self).d.graph().len(),
    {
        let ghost d0 = self.d;
        let id: u32 = self.d.and(a, b);
        proof {
            lemma_frame(&d0, &self.d);
        }
        id
    }

    fn n_or(&mut self, a: NodeId, b: NodeId) -> (id: NodeId)
        requires
            old(self).d.wf(),
            old(self).d.zero_start(),
            old(self).d.room(1),
            a < old(self).d.graph().len(),
            b < old(self).d.graph().len(),
        ensures
            old(self).kept(final(self)),
            (final(self).state(), id) == old(self).state().with(old(self).state().d.graph.or(a, b)),
            id < final(self).d.graph().len(),
    {
        let ghost d0 = self.d;
        let id: u32 = self.d.or(a, b);
        proof {
            lemma_frame(&d0, &self.d);
        }
        id
    }

    fn n_shl(&mut self, a: NodeId, b: NodeId) -> (id: NodeId)
        requires
            old(self).d.wf(),
            old(self).d.zero_start(),
            old(self).d.room(1),
            a < old(self).d.graph().len(),
            b < old(self).d.graph().len(),
        ensures
            old(self).kept(final(self)),
            (final(self).state(), id) == old(self).state().with(old(self).state().d.graph.shl(a, b)),
            id < final(self).d.graph().len(),
    {
        let ghost d0 = self.d;
        let id: u32 = self.d.shl(a, b);
        proof {
            lemma_frame(&d0, &self.d);
        }
        id
    }

    fn n_shr(&mut self, a: NodeId, b: NodeId) -> (id: NodeId)
        requires
            old(self).d.wf(),
            old(self).d.zero_start(),
            old(self).d.room(1),
            a < old(self).d.graph().len(),
            b < old(self).d.graph().len(),
        ensures
            old(self).kept(final(self)),
            (final(self).state(), id) == old(self).state().with(old(self).state().d.graph.shr(a, b)),
            id < final(self).d.graph().len(),
    {
        let ghost d0 = self.d;
        let id: u32 = self.d.shr(a, b);
        proof {
            lemma_frame(&d0, &self.d);
        }
        id
    }

    fn n_sub(&mut self, a: NodeId, b: NodeId) -> (id: NodeId)
        requires
            old(self).d.wf(),
            old(self).d.zero_start(),
            old(self).d.room(4),
            a < old(self).d.graph().len(),
            b < old(self).d.graph().len(),
        ensures
            old(self).kept(final(self)),
            (final(self).state(), id) == old(self).state().with(old(self).state().d.graph.sub(a, b)),
            id < final(self).d.graph().len(),
    {
        let ghost d0 = self.d;
        let id: u32 = self.d.sub(a, b);
        proof {
            lemma_frame(&d0, &self.d);
        }
        id
    }

    fn n_reg(&mut self, r: RegId) -> (id: NodeId)
        requires
            old(self).d.wf(),
            old(self).d.zero_start(),
            old(self).d.room(1),
            r < old(self).d.regs@.len(),
        ensures
            old(self).kept(final(self)),
            (final(self).state(), id) == old(self).state().with(
                old(self).state().d.graph.intern(
                    Node::Reg(r),
                    old(self).state().d.regs[r as int].width,
                ),
            ),
            id < final(self).d.graph().len(),
    {
        let ghost d0 = self.d;
        let id: u32 = self.d.reg(r);
        proof {
            lemma_frame(&d0, &self.d);
        }
        id
    }

    fn n_input(&mut self, i: u32) -> (id: NodeId)
        requires
            old(self).d.wf(),
            old(self).d.zero_start(),
            old(self).d.room(1),
            i < old(self).d.inputs@.len(),
        ensures
            old(self).kept(final(self)),
            (final(self).state(), id) == old(self).state().with(
                old(self).state().d.graph.intern(
                    Node::Input(i),
                    old(self).state().d.inputs[i as int].width,
                ),
            ),
            id < final(self).d.graph().len(),
    {
        let ghost d0 = self.d;
        let id: u32 = self.d.input(i);
        proof {
            lemma_frame(&d0, &self.d);
        }
        id
    }

    fn n_compare(&mut self, op: BinOp, l: NodeId, r: NodeId) -> (id: NodeId)
        requires
            old(self).d.wf(),
            old(self).d.zero_start(),
            old(self).d.room(2),
            l < old(self).d.graph().len(),
            r < old(self).d.graph().len(),
        ensures
            old(self).kept(final(self)),
            (final(self).state(), id) == old(self).state().with(
                compare_node(old(self).state().d.graph, op, l, r),
            ),
    {
        let ghost d0 = self.d;
        proof {
            reveal(compare_node);
        }
        let id: u32 = match op {
            BinOp::Eq => self.d.eq(l, r),
            BinOp::Ne => self.d.ne(l, r),
            BinOp::Lt => self.d.lt(l, r),
            BinOp::Le => self.d.le(l, r),
            BinOp::Gt => self.d.gt(l, r),
            _ => self.d.ge(l, r),
        };
        proof {
            lemma_frame(&d0, &self.d);
        }
        id
    }

    fn n_arith(&mut self, op: BinOp, l: NodeId, r: NodeId) -> (id: NodeId)
        requires
            old(self).d.wf(),
            old(self).d.zero_start(),
            old(self).d.room(4),
            l < old(self).d.graph().len(),
            r < old(self).d.graph().len(),
        ensures
            old(self).kept(final(self)),
            (final(self).state(), id) == old(self).state().with(
                arith_node(old(self).state().d.graph, op, l, r),
            ),
    {
        let ghost d0 = self.d;
        proof {
            reveal(arith_node);
        }
        let id: u32 = match op {
            BinOp::Add => self.d.add(l, r),
            BinOp::Sub => self.d.sub(l, r),
            BinOp::Mul => self.d.mul(l, r),
            BinOp::And => self.d.and(l, r),
            BinOp::Or => self.d.or(l, r),
            _ => self.d.xor(l, r),
        };
        proof {
            lemma_frame(&d0, &self.d);
        }
        id
    }

    // --- scope helpers ---------------------------------------------------

    fn lookup(&self, name: &str) -> (r: Option<Binding>)
        ensures
            r == self.state().lookup(name@),
    {
        let mut n: usize = self.scopes.len();
        let ghost view = self.state().scopes;
        while n > 0
            invariant
                n <= self.scopes@.len(),
                view == scopes_view(self.scopes@),
                find(view, name@, view.len() as int) == find(view, name@, n as int),
            decreases n,
        {
            let scope = &self.scopes[n - 1];
            assert(view[n - 1] == scope_view(scope@));
            let mut k: usize = scope.len();
            while k > 0
                invariant
                    k <= scope@.len(),
                    0 < n <= view.len(),
                    view == scopes_view(self.scopes@),
                    view[n - 1] == scope_view(scope@),
                    find(view, name@, view.len() as int) == find(view, name@, n as int),
                    find_in(scope_view(scope@), name@, scope@.len() as int) == find_in(
                        scope_view(scope@),
                        name@,
                        k as int,
                    ),
                decreases k,
            {
                assert(scope_view(scope@)[k - 1] == (scope@[k - 1].0@, scope@[k - 1].1));
                if same_text(scope[k - 1].0.as_str(), name) {
                    return Some(scope[k - 1].1);
                }
                k = k - 1;
            }
            n = n - 1;
        }
        None
    }

    /// Give `name` a meaning in the innermost scope.
    fn bind(&mut self, name: &str, b: Binding)
        requires
            old(self).scopes@.len() > 0,
        ensures
            final(self).prog == old(self).prog,
            final(self).d == old(self).d,
            final(self).state() == old(self).state().bind(name@, b),
    {
        let ghost sc0 = self.scopes@;
        let n: usize = self.scopes.len() - 1;
        let entry = (name.to_owned(), b);
        self.scopes[n].push(entry);
        proof {
            assert(scope_view(self.scopes@[n as int]@) =~= scope_view(sc0[n as int]@).push(
                (name@, b),
            ));
            assert(scopes_view(self.scopes@) =~= scopes_view(sc0).update(
                n as int,
                scope_view(sc0[n as int]@).push((name@, b)),
            ));
        }
    }

    fn add_reg(&mut self, name: &str, width: u32) -> (r: RegId)
        requires
            old(self).d.wf(),
            old(self).d.zero_start(),
            old(self).d.regs@.len() < u32::MAX,
        ensures
            old(self).kept(final(self)),
            final(self).scopes == old(self).scopes,
            (final(self).state(), r) == old(self).state().add_reg(name@, width),
    {
        let ghost d0 = self.d;
        let r: u32 = self.d.add_reg(name, width);
        proof {
            assert(self.d.tree().regs =~= d0.tree().regs.push(Signal { name: name@, width }));
            assert(self.d.tree().inputs =~= d0.tree().inputs);
            assert(self.d.tree().outputs =~= d0.tree().outputs);
            assert(self.d.tree().blocks =~= d0.tree().blocks);
            assert forall|i: int| 0 <= i < self.d.regs@.len() implies (
            #[trigger] self.d.regs@[i]).reset == 0 by {
                if i < d0.regs@.len() {
                    assert(self.d.regs@[i] == d0.regs@[i]);
                }
            }
        }
        r
    }

    fn declare(&mut self, name: &str, width: u32) -> (r: RegId)
        requires
            old(self).d.wf(),
            old(self).d.zero_start(),
            old(self).d.regs@.len() < u32::MAX,
            old(self).scopes@.len() > 0,
        ensures
            old(self).kept(final(self)),
            (final(self).state(), r) == old(self).state().declare(name@, width),
    {
        // Registers are uniquely named per declaration site so the emitted
        // report is readable even when a name is shadowed or reused in a loop.
        let mut unique = name.to_owned();
        unique.append("#");
        push_decimal(&mut unique, self.d.regs.len() as u64);
        let r: u32 = self.add_reg(unique.as_str(), width);
        self.bind(name, Binding::Reg(r));
        r
    }

    fn fresh_temp(&mut self, width: u32) -> (r: RegId)
        requires
            old(self).d.wf(),
            old(self).d.zero_start(),
            old(self).d.regs@.len() < u32::MAX,
            old(self).temp_counter <= old(self).d.regs@.len(),
        ensures
            old(self).kept(final(self)),
            final(self).scopes == old(self).scopes,
            (final(self).state(), r) == old(self).state().fresh_temp(width),
    {
        self.temp_counter = self.temp_counter + 1;
        let mut name = String::from_str("$t");
        push_decimal(&mut name, self.temp_counter as u64);
        self.add_reg(name.as_str(), width)
    }

    fn write(&mut self, r: RegId, v: NodeId)
        ensures
            final(self).prog == old(self).prog,
            final(self).d == old(self).d,
            final(self).state() == old(self).state().write(r, v),
    {
        self.env.insert(r, v);
    }

    // --- block plumbing --------------------------------------------------

    fn add_block(&mut self, label: &str) -> (b: BlockId)
        requires
            old(self).d.wf(),
            old(self).d.zero_start(),
            old(self).d.blocks@.len() < u32::MAX,
        ensures
            old(self).kept(final(self)),
            (final(self).state(), b) == old(self).state().add_block(label@),
    {
        let ghost d0 = self.d;
        let b: u32 = self.d.add_block(label);
        proof {
            let t = BlockTree { label: label@, assigns: seq![], term: Term::Halt };
            assert(block_tree(self.d.blocks@[b as int]) =~= t);
            assert(self.d.tree().blocks =~= d0.tree().blocks.push(t));
            assert(self.d.tree().regs =~= d0.tree().regs);
            assert(self.d.tree().inputs =~= d0.tree().inputs);
            assert(self.d.tree().outputs =~= d0.tree().outputs);
        }
        b
    }

    /// The pending writes, by register, without those that change nothing.
    fn pending_writes(&self) -> (p: Vec<(RegId, NodeId)>)
        requires
            self.d.wf(),
            self.d.regs@.len() <= u32::MAX,
            forall|r: RegId| #[trigger]
                self.env@.contains_key(r) ==> self.env@[r] < self.d.graph().len(),
        ensures
            p@ == pending(self.env@, self.d.graph(), self.d.regs@.len()),
    {
        let mut p: Vec<(RegId, NodeId)> = Vec::new();
        let n: usize = self.d.regs.len();
        for i in 0..n
            invariant
                n == self.d.regs@.len(),
                n <= u32::MAX,
                self.d.wf(),
                forall|r: RegId| #[trigger]
                    self.env@.contains_key(r) ==> self.env@[r] < self.d.graph().len(),
                p@ == pending(self.env@, self.d.graph(), i as nat),
        {
            let r: u32 = i as u32;
            if let Some(v) = self.env.get(&r) {
                let v: u32 = *v;
                if self.d.node(v) != Node::Reg(r) {
                    p.push((r, v));
                }
            }
        }
        p
    }

    /// Flush pending register writes into the current block and close it.
    fn commit_and_terminate(&mut self, term: Term)
        requires
            old(self).inv(),
            old(self).d.regs@.len() <= u32::MAX,
        ensures
            old(self).kept(final(self)),
            final(self).state() == old(self).state().close(term),
    {
        assert forall|r: RegId| #[trigger] self.env@.contains_key(r) implies self.env@[r]
            < self.d.graph().len() by {
            assert(write_ok(self.state().d, r, self.state().env[r]));
        }
        let assigns = self.pending_writes();
        let ghost d0 = self.d;
        let ghost p = assigns@;
        let at: usize = self.cur as usize;
        self.d.blocks[at].assigns = assigns;
        self.d.blocks[at].term = term;
        self.env.clear();
        proof {
            let t = BlockTree { label: d0.blocks@[at as int].label@, assigns: p, term };
            assert(self.d.blocks@[at as int].assigns@ == p);
            assert(block_tree(self.d.blocks@[at as int]) =~= t);
            assert(self.d.tree().blocks =~= d0.tree().blocks.update(at as int, t));
            assert(self.d.tree().regs =~= d0.tree().regs);
            assert(self.d.tree().inputs =~= d0.tree().inputs);
            assert(self.d.tree().outputs =~= d0.tree().outputs);
            assert(self.env@ =~= Map::empty());
        }
    }

    /// Go on in block `b`, with nothing pending.
    fn enter(&mut self, b: BlockId)
        ensures
            final(self).prog == old(self).prog,
            final(self).d == old(self).d,
            final(self).state() == old(self).state().enter(b),
    {
        self.cur = b;
        self.env.clear();
        assert(self.env@ =~= Map::empty());
    }

    fn push_scope(&mut self, scope: Vec<(String, Binding)>)
        ensures
            final(self).prog == old(self).prog,
            final(self).d == old(self).d,
            final(self).state() == old(self).state().push_scope(scope_view(scope@)),
    {
        let ghost sc0 = self.scopes@;
        let ghost v = scope_view(scope@);
        self.scopes.push(scope);
        assert(scopes_view(self.scopes@) =~= scopes_view(sc0).push(v));
    }

    fn pop_scope(&mut self)
        requires
            old(self).scopes@.len() > 0,
        ensures
            final(self).prog == old(self).prog,
            final(self).d == old(self).d,
            final(self).state() == old(self).state().pop_scope(),
    {
        let ghost sc0 = self.scopes@;
        self.scopes.pop();
        assert(scopes_view(self.scopes@) =~= scopes_view(sc0).drop_last());
    }

    /// Is there room to go on?
    fn roomy(&self) -> (r: bool)
        ensures
            r == self.state().roomy(),
    {
        let limit: usize = 0xffff_ffff - SPARE;
        self.d.node_count() <= limit && self.d.regs.len() <= limit && self.d.inputs.len() <= limit
            && self.d.blocks.len() <= limit
    }

    fn too_large() -> (s: String)
        ensures
            s@ == too_large(),
    {
        String::from_str("program is too large")
    }

    /// Read the current value of a register within this cycle.
    fn read_reg(&mut self, r: RegId) -> (id: NodeId)
        requires
            old(self).inv(),
            old(self).d.room(1),
            r < old(self).d.regs@.len(),
        ensures
            old(self).kept(final(self)),
            (final(self).state(), id) == old(self).state().read_reg(r),
    {
        if let Some(v) = self.env.get(&r) {
            return *v;
        }
        self.n_reg(r)
    }

    /// Park `value` in a fresh register and return a reader valid on the far
    /// side of the upcoming cycle boundary.
    fn spill(&mut self, value: NodeId) -> (id: NodeId)
        requires
            old(self).inv(),
            near(old(self).state()),
            value < old(self).d.graph().len(),
        ensures
            old(self).kept(final(self)),
            (final(self).state(), id) == old(self).state().spill(value),
    {
        let w: u32 = self.d.width(value);
        let t: u32 = self.fresh_temp(w);
        self.write(t, value);
        assert(self.state().d.regs.len() == self.d.regs@.len());
        self.n_reg(t)
    }

    // --- expressions -----------------------------------------------------

    fn width_of(&self, b: Binding) -> (w: u32)
        requires
            bound_ok(self.state(), b),
        ensures
            w == self.state().width_of(b),
    {
        match b {
            Binding::Reg(r) => self.d.regs[r as usize].width,
            Binding::Input(i) => self.d.inputs[i as usize].width,
        }
    }

    /// The width an expression forces on its own, if any. `None` means the
    /// expression is width-polymorphic (a bare integer literal).
    fn infer_width(&self, e: &Expr) -> (r: LowerResult<Option<u32>>)
        requires
            self.inv(),
        ensures
            same_text_result(infer(self.program(), self.state(), e.tree()), r),
        decreases expr_size(e.tree()),
    {
        proof {
            if let Expr::Ternary { cond, .. } = e {
                lemma_sizes(cond.tree());
            }
        }
        match e {
            Expr::Num { .. } => Ok(None),
            Expr::Ident { name, span } => {
                proof {
                    lemma_lookup(self.program(), self.state(), name@);
                }
                match self.lookup(name.as_str()) {
                    Some(b) => Ok(Some(self.width_of(b))),
                    None => Err(message(*span, ": unknown name `", name.as_str(), "`")),
                }
            },
            Expr::Unary { op, operand, .. } => match op {
                UnOp::Not => Ok(Some(1)),
                _ => self.infer_width(operand),
            },
            Expr::Binary { op, lhs, rhs, .. } => {
                if op.is_predicate() {
                    Ok(Some(1))
                } else if op.is_shift() {
                    self.infer_width(lhs)
                } else {
                    self.infer_either(lhs, rhs)
                }
            },
            Expr::Call { name, span, .. } => match find_func(self.prog, name.as_str()) {
                Some(k) => {
                    assert(self.program().funcs[k as int] == self.prog.funcs@[k as int].tree());
                    match self.prog.funcs[k].ret {
                        Some(t) => Ok(Some(t.width)),
                        None => Ok(None),
                    }
                },
                None => Err(message(*span, ": unknown function `", name.as_str(), "`")),
            },
            Expr::Cast { ty, .. } => Ok(Some(ty.width)),
            Expr::Ternary { then_e, else_e, .. } => self.infer_either(then_e, else_e),
        }
    }

    fn infer_either(&self, a: &Expr, b: &Expr) -> (r: LowerResult<Option<u32>>)
        requires
            self.inv(),
        ensures
            match infer(self.program(), self.state(), a.tree()) {
                Ok(x) => match infer(self.program(), self.state(), b.tree()) {
                    Ok(y) => r == Ok::<_, String>(either(x, y)),
                    Err(m) => r matches Err(e) && e@ == m,
                },
                Err(m) => r matches Err(e) && e@ == m,
            },
        decreases expr_size(a.tree()) + expr_size(b.tree()),
    {
        proof {
            lemma_sizes(a.tree());
            lemma_sizes(b.tree());
        }
        let x = match self.infer_width(a) {
            Ok(x) => x,
            Err(e) => {
                return Err(e);
            },
        };
        let y = match self.infer_width(b) {
            Ok(y) => y,
            Err(e) => {
                return Err(e);
            },
        };
        Ok(first_width(x, y))
    }
}

fn first_width(a: Option<u32>, b: Option<u32>) -> (r: Option<u32>)
    ensures
        r == either(a, b),
{
    match a {
        Some(x) => Some(x),
        None => b,
    }
}

fn width_else(a: Option<u32>, w: u32) -> (r: u32)
    ensures
        r == width_or(a, w),
{
    match a {
        Some(x) => x,
        None => w,
    }
}

// --- lowering, step by step ----------------------------------------------

/// `place: a`.
fn complain(span: Span, a: &str) -> (s: String)
    ensures
        s@ == span_text(span) + a@,
{
    let mut s = span.text();
    s.append(a);
    s
}

proof fn lemma_args_view(args: Seq<Expr>, e: Expr)
    requires
        e matches Expr::Call { args: a, .. } && a@ == args,
    ensures
        e.tree() matches ExprTree::Call { args: t, .. } && t == trees(args),
{
    match e.tree() {
        ExprTree::Call { args: t, .. } => {
            assert(t =~= trees(args));
        },
        _ => {},
    }
}

/// Does one of the arguments from `i` on cross a cycle boundary?
fn later_split(args: &Vec<Expr>, i: usize) -> (r: bool)
    requires
        i <= args@.len(),
    ensures
        r == later_splits(trees(args@), i as int),
{
    let mut k: usize = i;
    while k < args.len()
        invariant
            i <= k <= args@.len(),
            forall|j: int| i <= j < k ==> !splits(#[trigger] trees(args@)[j]),
        decreases args@.len() - k,
    {
        assert(trees(args@)[k as int] == args@[k as int].tree());
        if splits_at(&args[k]) {
            assert(splits(trees(args@)[k as int]));
            return true;
        }
        k = k + 1;
    }
    false
}

impl<'p> Lowerer<'p> {
    /// Ready to lower: the invariant holds and there is room.
    closed spec fn ready(&self) -> bool {
        self.inv() && self.state().roomy()
    }

    /// The outcome of lowering an expression.
    closed spec fn lowered(
        &self,
        later: &Lowerer<'p>,
        spec: Lowered<NodeId>,
        got: Result<NodeId, String>,
    ) -> bool {
        &&& self.kept(later)
        &&& matches(spec, got, later.state())
        &&& got matches Ok(v) ==> later.inv() && v < later.d.graph().len()
    }

    fn lower_expr(&mut self, e: &Expr, expected: Option<u32>) -> (r: LowerResult<NodeId>)
        requires
            old(self).ready(),
            expr_ok(e.tree()),
            expected matches Some(w) ==> width_ok(w),
        ensures
            old(self).lowered(
                final(self),
                lower_expr(old(self).program(), old(self).state(), e.tree(), expected),
                r,
            ),
            r is Ok ==> final(self).ready(),
        decreases depth(old(self).program(), old(self).state()), expr_size(e.tree()), 3int,
    {
        let ghost st = self.state();
        let ghost prog = self.program();
        proof {
            lemma_expr(prog, st, e.tree(), expected);
            lemma_raw(prog, st, e.tree(), expected);
        }
        let v = match self.lower_expr_raw(e, expected) {
            Ok(v) => v,
            Err(m) => {
                return Err(m);
            },
        };
        let v: u32 = match expected {
            Some(w) => self.n_resize(v, w),
            None => v,
        };
        if self.roomy() {
            Ok(v)
        } else {
            Err(Self::too_large())
        }
    }

    /// Lower an expression used as a condition, reducing it to one bit.
    fn lower_cond(&mut self, e: &Expr) -> (r: LowerResult<NodeId>)
        requires
            old(self).ready(),
            expr_ok(e.tree()),
        ensures
            old(self).lowered(
                final(self),
                lower_cond(old(self).program(), old(self).state(), e.tree()),
                r,
            ),
            r is Ok ==> final(self).ready(),
        decreases depth(old(self).program(), old(self).state()), expr_size(e.tree()), 4int,
    {
        let ghost st = self.state();
        let ghost prog = self.program();
        proof {
            lemma_cond(prog, st, e.tree());
            lemma_infer(prog, st, e.tree());
        }
        let w = match self.infer_width(e) {
            Ok(w) => w,
            Err(m) => {
                return Err(m);
            },
        };
        let v = match self.lower_expr(e, Some(width_else(w, 1))) {
            Ok(v) => v,
            Err(m) => {
                return Err(m);
            },
        };
        let v: u32 = self.n_any(v);
        if self.roomy() {
            Ok(v)
        } else {
            Err(Self::too_large())
        }
    }

    /// Lower two operands left-to-right, spilling the first across any cycle
    /// boundary the second introduces.
    fn lower_pair(&mut self, lhs: &Expr, rhs: &Expr, lw: u32, rw: u32) -> (r: LowerResult<
        (NodeId, NodeId),
    >)
        requires
            old(self).ready(),
            expr_ok(lhs.tree()),
            expr_ok(rhs.tree()),
            width_ok(lw),
            width_ok(rw),
        ensures
            old(self).kept(final(self)),
            matches(
                lower_pair(
                    old(self).program(),
                    old(self).state(),
                    lhs.tree(),
                    rhs.tree(),
                    lw,
                    rw,
                ),
                r,
                final(self).state(),
            ),
            r matches Ok((a, b)) ==> final(self).ready() && a < final(self).d.graph().len() && b
                < final(self).d.graph().len(),
        decreases
                depth(old(self).program(), old(self).state()),
                expr_size(lhs.tree()) + expr_size(rhs.tree()),
                4int,
    {
        let ghost st = self.state();
        let ghost prog = self.program();
        proof {
            lemma_sizes(lhs.tree());
            lemma_sizes(rhs.tree());
            lemma_pair(prog, st, lhs.tree(), rhs.tree(), lw, rw);
            lemma_expr(prog, st, lhs.tree(), Some(lw));
        }
        let mut l: u32 = match self.lower_expr(lhs, Some(lw)) {
            Ok(v) => v,
            Err(m) => {
                return Err(m);
            },
        };
        if splits_at(rhs) {
            proof {
                lemma_spill(prog, self.state(), l);
            }
            l = self.spill(l);
        }
        if !self.roomy() {
            return Err(Self::too_large());
        }
        match self.lower_expr(rhs, Some(rw)) {
            Ok(r) => Ok((l, r)),
            Err(m) => Err(m),
        }
    }

    /// The node of a unary operation.
    fn unary(&mut self, op: UnOp, v: NodeId, w: u32) -> (id: NodeId)
        requires
            old(self).ready(),
            v < old(self).d.graph().len(),
        ensures
            old(self).kept(final(self)),
            (final(self).state(), id) == unary_node(old(self).state(), op, v, w),
    {
        proof {
            reveal(unary_node);
            lemma_growth(self.state().d.graph, v, v, v, w, 0, Node::Any(v));
        }
        match op {
            UnOp::Not => {
                let nz: u32 = self.n_any(v);
                self.n_not(nz)
            },
            UnOp::BitNot => self.n_not(v),
            UnOp::Neg => {
                let z: u32 = self.n_constant(0, w);
                self.n_sub(z, v)
            },
        }
    }

    /// The node of `&&` or `||`.
    fn logic(&mut self, op: BinOp, l: NodeId, r: NodeId) -> (id: NodeId)
        requires
            old(self).ready(),
            l < old(self).d.graph().len(),
            r < old(self).d.graph().len(),
        ensures
            old(self).kept(final(self)),
            (final(self).state(), id) == logic_node(old(self).state(), op, l, r),
    {
        proof {
            reveal(logic_node);
            lemma_growth(self.state().d.graph, l, r, r, 1, 0, Node::Any(l));
        }
        let ghost g0 = self.state().d.graph;
        let la: u32 = self.n_any(l);
        proof {
            lemma_growth(self.state().d.graph, r, l, r, 1, 0, Node::Any(l));
        }
        let ra: u32 = self.n_any(r);
        match op {
            BinOp::LAnd => self.n_and(la, ra),
            _ => self.n_or(la, ra),
        }
    }

    fn lower_expr_raw(&mut self, e: &Expr, expected: Option<u32>) -> (r: LowerResult<NodeId>)
        requires
            old(self).ready(),
            expr_ok(e.tree()),
            expected matches Some(w) ==> width_ok(w),
        ensures
            old(self).lowered(
                final(self),
                lower_raw(old(self).program(), old(self).state(), e.tree(), expected),
                r,
            ),
        decreases depth(old(self).program(), old(self).state()), expr_size(e.tree()), 2int,
    {
        let ghost st = self.state();
        let ghost prog = self.program();
        proof {
            lemma_raw(prog, st, e.tree(), expected);
        }
        match e {
            Expr::Num { value, span } => match expected {
                None => {
                    let shown = crate::text::decimal_text(*value);
                    let mut m = message(
                        *span,
                        ": cannot infer the width of literal `",
                        shown.as_str(),
                        "`; add a cast, e.g. `",
                    );
                    m.append(shown.as_str());
                    m.append(" as u8`");
                    Err(m)
                },
                Some(w) => {
                    if w < 64 && *value >= 1u64 << (w as u64) {
                        let shown = crate::text::decimal_text(*value);
                        let mut m = message(
                            *span,
                            ": literal `",
                            shown.as_str(),
                            "` does not fit in u",
                        );
                        push_decimal(&mut m, w as u64);
                        return Err(m);
                    }
                    Ok(self.n_constant(*value, w))
                },
            },
            Expr::Ident { name, span } => {
                proof {
                    lemma_lookup(prog, st, name@);
                }
                match self.lookup(name.as_str()) {
                    Some(Binding::Reg(r)) => Ok(self.read_reg(r)),
                    Some(Binding::Input(i)) => Ok(self.n_input(i)),
                    None => Err(message(*span, ": unknown name `", name.as_str(), "`")),
                }
            },
            Expr::Cast { operand, ty, .. } => {
                proof {
                    lemma_infer(prog, st, operand.tree());
                }
                let inner = match self.infer_width(operand) {
                    Ok(w) => w,
                    Err(m) => {
                        return Err(m);
                    },
                };
                let v: u32 = match self.lower_expr(operand, Some(width_else(inner, ty.width))) {
                    Ok(v) => v,
                    Err(m) => {
                        return Err(m);
                    },
                };
                Ok(self.n_resize(v, ty.width))
            },
            Expr::Unary { op, operand, span } => {
                proof {
                    lemma_infer(prog, st, operand.tree());
                }
                let inner = match self.infer_width(operand) {
                    Ok(w) => w,
                    Err(m) => {
                        return Err(m);
                    },
                };
                let at: Option<u32> = match op {
                    UnOp::Not => Some(width_else(inner, 1)),
                    _ => first_width(expected, inner),
                };
                match at {
                    Some(w) => {
                        let v: u32 = match self.lower_expr(operand, Some(w)) {
                            Ok(v) => v,
                            Err(m) => {
                                return Err(m);
                            },
                        };
                        Ok(self.unary(*op, v, w))
                    },
                    None => {
                        let what = match op {
                            UnOp::Neg => "-",
                            _ => "~",
                        };
                        Err(message(*span, ": cannot infer width of `", what, "`"))
                    },
                }
            },
            Expr::Binary { op, lhs, rhs, span } => self.lower_binary(
                *op,
                lhs,
                rhs,
                expected,
                *span,
            ),
            Expr::Ternary { cond, then_e, else_e, span } => self.lower_ternary(
                cond,
                then_e,
                else_e,
                expected,
                *span,
            ),
            Expr::Call { name, args, span } => {
                proof {
                    lemma_args_view(args@, *e);
                    assert forall|k: int| 0 <= k < args@.len() implies expr_ok(
                        (#[trigger] args@[k]).tree(),
                    ) by {
                        assert(expr_ok(trees(args@)[k]));
                    }
                }
                self.lower_call(name, args, *span)
            },
        }
    }

    fn lower_ternary(
        &mut self,
        cond: &Expr,
        then_e: &Expr,
        else_e: &Expr,
        expected: Option<u32>,
        span: Span,
    ) -> (r: LowerResult<NodeId>)
        requires
            old(self).ready(),
            expr_ok(cond.tree()),
            expr_ok(then_e.tree()),
            expr_ok(else_e.tree()),
            expected matches Some(w) ==> width_ok(w),
        ensures
            old(self).lowered(
                final(self),
                lower_raw(
                    old(self).program(),
                    old(self).state(),
                    ExprTree::Ternary {
                        cond: Box::new(cond.tree()),
                        then_e: Box::new(then_e.tree()),
                        else_e: Box::new(else_e.tree()),
                        span,
                    },
                    expected,
                ),
                r,
            ),
        decreases
                depth(old(self).program(), old(self).state()),
                expr_size(cond.tree()) + expr_size(then_e.tree()) + expr_size(else_e.tree()),
                5int,
    {
        let ghost st = self.state();
        let ghost prog = self.program();
        proof {
            lemma_sizes(cond.tree());
            lemma_sizes(then_e.tree());
            lemma_sizes(else_e.tree());
            lemma_infer(prog, st, then_e.tree());
            lemma_infer(prog, st, else_e.tree());
            lemma_raw(
                prog,
                st,
                ExprTree::Ternary {
                    cond: Box::new(cond.tree()),
                    then_e: Box::new(then_e.tree()),
                    else_e: Box::new(else_e.tree()),
                    span,
                },
                expected,
            );
        }
        let arms = match self.infer_either(then_e, else_e) {
            Ok(w) => w,
            Err(m) => {
                return Err(m);
            },
        };
        let w: u32 = match first_width(expected, arms) {
            Some(w) => w,
            None => {
                return Err(message(span, ": cannot infer width of `", "? :", "`"));
            },
        };
        let mut c: u32 = match self.lower_cond(cond) {
            Ok(v) => v,
            Err(m) => {
                return Err(m);
            },
        };
        proof {
            lemma_cond(prog, st, cond.tree());
        }
        if splits_at(then_e) || splits_at(else_e) {
            proof {
                lemma_spill(prog, self.state(), c);
            }
            c = self.spill(c);
        }
        if !self.roomy() {
            return Err(Self::too_large());
        }
        let ghost st2 = self.state();
        proof {
            lemma_pair(prog, st2, then_e.tree(), else_e.tree(), w, w);
        }
        let (t, f) = match self.lower_pair(then_e, else_e, w, w) {
            Ok(p) => p,
            Err(m) => {
                return Err(m);
            },
        };
        Ok(self.n_mux(c, t, f))
    }

    #[verifier::rlimit(40)]
    fn lower_binary(
        &mut self,
        op: BinOp,
        lhs: &Expr,
        rhs: &Expr,
        expected: Option<u32>,
        span: Span,
    ) -> (r: LowerResult<NodeId>)
        requires
            old(self).ready(),
            expr_ok(lhs.tree()),
            expr_ok(rhs.tree()),
            expected matches Some(w) ==> width_ok(w),
        ensures
            old(self).lowered(
                final(self),
                lower_binary(
                    old(self).program(),
                    old(self).state(),
                    op,
                    lhs.tree(),
                    rhs.tree(),
                    expected,
                    span,
                ),
                r,
            ),
        decreases
                depth(old(self).program(), old(self).state()),
                expr_size(lhs.tree()) + expr_size(rhs.tree()),
                5int,
    {
        let ghost st = self.state();
        let ghost prog = self.program();
        proof {
            lemma_infer(prog, st, lhs.tree());
            lemma_infer(prog, st, rhs.tree());
            lemma_binary(prog, st, op, lhs.tree(), rhs.tree(), expected, span);
        }
        let a = match self.infer_width(lhs) {
            Ok(w) => w,
            Err(m) => {
                return Err(m);
            },
        };
        match op {
            BinOp::LAnd | BinOp::LOr => {
                let b = match self.infer_width(rhs) {
                    Ok(w) => w,
                    Err(m) => {
                        return Err(m);
                    },
                };
                let (l, r) = match self.lower_pair(lhs, rhs, width_else(a, 1), width_else(b, 1)) {
                    Ok(p) => p,
                    Err(m) => {
                        return Err(m);
                    },
                };
                Ok(self.logic(op, l, r))
            },
            BinOp::Shl | BinOp::Shr => {
                let w: u32 = match first_width(expected, a) {
                    Some(w) => w,
                    None => {
                        return Err(message(span, ": cannot infer width of `", op.symbol(), "`"));
                    },
                };
                let b = match self.infer_width(rhs) {
                    Ok(w) => w,
                    Err(m) => {
                        return Err(m);
                    },
                };
                // The shift amount is independent of the value's width.
                let sw: u32 = width_else(b, shift_width(w));
                let (l, r) = match self.lower_pair(lhs, rhs, w, sw) {
                    Ok(p) => p,
                    Err(m) => {
                        return Err(m);
                    },
                };
                match op {
                    BinOp::Shl => Ok(self.n_shl(l, r)),
                    _ => Ok(self.n_shr(l, r)),
                }
            },
            BinOp::Eq | BinOp::Ne | BinOp::Lt | BinOp::Le | BinOp::Gt | BinOp::Ge => {
                // Comparison operands must agree with each other, but the
                // result width is independent of them.
                let b = match self.infer_width(rhs) {
                    Ok(w) => w,
                    Err(m) => {
                        return Err(m);
                    },
                };
                let w: u32 = match first_width(a, b) {
                    Some(w) => w,
                    None => {
                        return Err(
                            message(
                                span,
                                ": cannot infer operand width for `",
                                op.symbol(),
                                "`; both sides are bare literals",
                            ),
                        );
                    },
                };
                let (l, r) = match self.lower_pair(lhs, rhs, w, w) {
                    Ok(p) => p,
                    Err(m) => {
                        return Err(m);
                    },
                };
                Ok(self.n_compare(op, l, r))
            },
            _ => {
                let b = match self.infer_width(rhs) {
                    Ok(w) => w,
                    Err(m) => {
                        return Err(m);
                    },
                };
                let w: u32 = match first_width(expected, first_width(a, b)) {
                    Some(w) => w,
                    None => {
                        return Err(message(span, ": cannot infer width of `", op.symbol(), "`"));
                    },
                };
                let (l, r) = match self.lower_pair(lhs, rhs, w, w) {
                    Ok(p) => p,
                    Err(m) => {
                        return Err(m);
                    },
                };
                Ok(self.n_arith(op, l, r))
            },
        }
    }

    /// Evaluate arguments left to right, spilling earlier ones across any
    /// cycle boundary a later argument introduces.
    fn lower_args(&mut self, f: &Func, args: &Vec<Expr>) -> (r: LowerResult<Vec<NodeId>>)
        requires
            old(self).ready(),
            func_ok(f.tree()),
            f.params@.len() == args@.len(),
            forall|k: int| 0 <= k < args@.len() ==> expr_ok((#[trigger] args@[k]).tree()),
        ensures
            old(self).kept(final(self)),
            match lower_args(
                old(self).program(),
                old(self).state(),
                f.tree().params,
                trees(args@),
                0,
                seq![],
            ) {
                Ok((st, v)) => r matches Ok(x) && x@ == v && final(self).state() == st,
                Err(m) => r matches Err(e) && e@ == m,
            },
            r is Ok ==> final(self).ready(),
        decreases depth(old(self).program(), old(self).state()), args_size(trees(args@), 0), 90int,
    {
        let ghost st = self.state();
        let ghost prog = self.program();
        let ghost ps = f.tree().params;
        let ghost ts = trees(args@);
        let mut vals: Vec<NodeId> = Vec::new();
        let n: usize = args.len();
        proof {
            assert forall|k: int| 0 <= k < ts.len() implies expr_ok(#[trigger] ts[k]) by {
                assert(ts[k] == args@[k].tree());
            }
            lemma_args(prog, st, ps, ts, 0, seq![]);
            lemma_follows_refl(st);
            assert(vals@ =~= seq![]);
        }
        for i in 0..n
            invariant
                n == args@.len(),
                n == f.params@.len(),
                prog == self.program(),
                prog == old(self).program(),
                st == old(self).state(),
                old(self).kept(self),
                self.ready(),
                func_ok(f.tree()),
                ps == f.tree().params,
                ts == trees(args@),
                forall|k: int| 0 <= k < args@.len() ==> expr_ok((#[trigger] args@[k]).tree()),
                forall|k: int| 0 <= k < ts.len() ==> expr_ok(#[trigger] ts[k]),
                vals@.len() == i,
                args_result(self.state(), ps, vals@),
                self.state().stack == st.stack,
                lower_args(prog, st, ps, ts, 0, seq![]) == lower_args(
                    prog,
                    self.state(),
                    ps,
                    ts,
                    i as nat,
                    vals@,
                ),
                args_size(ts, i as nat) <= args_size(ts, 0),
        {
            let ghost st0 = self.state();
            let ghost vals0 = vals@;
            let w: u32 = f.params[i].ty.width;
            proof {
                assert(ps[i as int] == f.params@[i as int].tree());
                assert(ts[i as int] == args@[i as int].tree());
                lemma_sizes(ts[i as int]);
                lemma_args(prog, st0, ps, ts, i as nat, vals0);
                lemma_expr(prog, st0, ts[i as int], Some(w));
            }
            let mut v: u32 = match self.lower_expr(&args[i], Some(w)) {
                Ok(v) => v,
                Err(m) => {
                    return Err(m);
                },
            };
            let ghost st1 = self.state();
            if later_split(args, i + 1) {
                proof {
                    lemma_spill(prog, st1, v);
                }
                v = self.spill(v);
            } else {
                proof {
                    lemma_follows_refl(st1);
                }
            }
            if !self.roomy() {
                return Err(Self::too_large());
            }
            vals.push(v);
            proof {
                let st2 = self.state();
                assert forall|k: int| 0 <= k < vals@.len() implies (#[trigger] vals@[k])
                    < st2.d.graph.len() && st2.d.graph.width(vals@[k]) == ps[k].ty.width by {
                    if k < i {
                        assert(vals@[k] == vals0[k]);
                        assert(vals0[k] < st0.d.graph.len());
                        assert(st1.d.graph.widths[vals0[k] as int]
                            == st0.d.graph.widths[vals0[k] as int]);
                        assert(st2.d.graph.widths[vals0[k] as int]
                            == st1.d.graph.widths[vals0[k] as int]);
                    }
                }
            }
        }
        Ok(vals)
    }

    /// Bind parameters to fresh registers, written with the arguments.
    fn bind_params(&mut self, f: &Func, vals: &Vec<NodeId>) -> (r: LowerResult<
        Vec<(String, Binding)>,
    >)
        requires
            old(self).inv(),
            near(old(self).state()),
            func_ok(f.tree()),
            f.params@.len() == vals@.len(),
            args_result(old(self).state(), f.tree().params, vals@),
        ensures
            old(self).kept(final(self)),
            match bind_params(
                old(self).state(),
                f.tree().params,
                vals@,
                f.params@.len(),
            ) {
                Ok((st, v)) => r matches Ok(x) && scope_view(x@) == v && final(self).state() == st,
                Err(m) => r matches Err(e) && e@ == m,
            },
            r is Ok ==> final(self).inv(),
    {
        let ghost st = self.state();
        let ghost prog = self.program();
        let ghost ps = f.tree().params;
        let mut frame: Vec<(String, Binding)> = Vec::new();
        let n: usize = f.params.len();
        assert(scope_view(frame@) =~= seq![]);
        for i in 0..n
            invariant
                n == f.params@.len(),
                n == vals@.len(),
                prog == self.program(),
                prog == old(self).program(),
                st == old(self).state(),
                sound(prog, st),
                near(st),
                old(self).kept(self),
                self.inv(),
                near(self.state()),
                func_ok(f.tree()),
                ps == f.tree().params,
                args_result(st, ps, vals@),
                bind_params(st, ps, vals@, i as nat) == Ok::<_, Seq<char>>(
                    (self.state(), scope_view(frame@)),
                ),
        {
            proof {
                lemma_bind_params(prog, st, ps, vals@, i as nat);
                lemma_bind_params(prog, st, ps, vals@, (i + 1) as nat);
                assert(ps[i as int] == f.params@[i as int].tree());
                assert(width_ok(ps[i as int].ty.width));
                assert(vals@[i as int] < st.d.graph.len());
            }
            let ghost frame0 = frame@;
            let r: u32 = self.fresh_temp(f.params[i].ty.width);
            self.write(r, vals[i]);
            frame.push((f.params[i].name.clone(), Binding::Reg(r)));
            proof {
                assert(scope_view(frame@) =~= scope_view(frame0).push(
                    (ps[i as int].name, Binding::Reg(r)),
                ));
                lemma_bind_stuck(st, ps, vals@, (i + 1) as nat, n as nat);
            }
            if !self.roomy() {
                return Err(Self::too_large());
            }
        }
        Ok(frame)
    }

    fn lower_call(&mut self, name: &String, args: &Vec<Expr>, span: Span) -> (r: LowerResult<
        NodeId,
    >)
        requires
            old(self).ready(),
            forall|k: int| 0 <= k < args@.len() ==> expr_ok((#[trigger] args@[k]).tree()),
        ensures
            old(self).lowered(
                final(self),
                lower_call(
                    old(self).program(),
                    old(self).state(),
                    name@,
                    trees(args@),
                    span,
                ),
                r,
            ),
        decreases
                depth(old(self).program(), old(self).state()),
                1 + args_size(trees(args@), 0),
                1int,
    {
        let ghost st = self.state();
        let ghost prog = self.program();
        let ghost ts = trees(args@);
        proof {
            assert forall|k: int| 0 <= k < ts.len() implies expr_ok(#[trigger] ts[k]) by {
                assert(ts[k] == args@[k].tree());
            }
            lemma_call(prog, st, name@, ts, span);
            lemma_func_index(prog, name@, 0);
        }
        let program = self.prog;
        let k: usize = match find_func(program, name.as_str()) {
            Some(k) => k,
            None => {
                return Err(message(span, ": unknown function `", name.as_str(), "`"));
            },
        };
        let f = &program.funcs[k];
        assert(prog.funcs[k as int] == f.tree());
        assert(func_ok(prog.funcs[k as int]));
        if self.inlining(name) {
            let mut m = message(
                span,
                ": recursive call to `",
                name.as_str(),
                "` cannot be synthesised (",
            );
            let chain = self.chain_to(name);
            m.append(chain.as_str());
            m.append(")");
            return Err(m);
        }
        if f.params.len() != args.len() {
            let mut m = message(span, ": `", name.as_str(), "` takes ");
            push_decimal(&mut m, f.params.len() as u64);
            m.append(" argument(s), got ");
            push_decimal(&mut m, args.len() as u64);
            return Err(m);
        }
        proof {
            lemma_args(prog, st, f.tree().params, ts, 0, seq![]);
        }
        let vals = match self.lower_args(f, args) {
            Ok(v) => v,
            Err(m) => {
                return Err(m);
            },
        };
        let ghost st1 = self.state();
        proof {
            if let Some(t) = f.tree().ret {
                lemma_fresh_temp(prog, st1, t.width);
            }
        }
        let slot: Option<RegId> = match f.ret {
            Some(t) => Some(self.fresh_temp(t.width)),
            None => None,
        };
        let ghost st2 = self.state();
        assert(result_slot(st1, f.tree()) == (st2, slot));
        assert(args_result(st2, f.tree().params, vals@));
        proof {
            lemma_bind_params(prog, st2, f.tree().params, vals@, f.params@.len());
        }
        let frame = match self.bind_params(f, &vals) {
            Ok(fr) => fr,
            Err(m) => {
                return Err(m);
            },
        };
        let ghost st3 = self.state();
        // A call always ends the current block: parameters commit here and the
        // body starts on a clean cycle where `Reg(param)` reads the bound value.
        proof {
            lemma_enter_call(prog, st3, name@, scope_view(frame@), slot);
        }
        let ret_block: u32 = self.enter_call(name, frame, slot);
        let ghost st4 = self.state();
        proof {
            lemma_depth(prog, st4.stack);
            lemma_depth(prog, st.stack);
        }
        if !self.roomy() {
            return Err(Self::too_large());
        }
        proof {
            lemma_block(prog, st4, f.body.tree());
        }
        match self.lower_block(&f.body) {
            Ok(_) => {},
            Err(m) => {
                return Err(m);
            },
        }
        let ghost st5 = self.state();
        proof {
            lemma_leave_call(prog, st4, st5, ret_block);
        }
        // Fall off the end of the body into the return block.
        self.leave_call(ret_block);
        assert(self.state().d.regs.len() == self.d.regs@.len());
        match slot {
            Some(r) => Ok(self.n_reg(r)),
            None => Ok(self.n_constant(0, 1)),
        }
    }

    /// Is `name` being inlined?
    fn inlining(&self, name: &String) -> (r: bool)
        ensures
            r == self.state().stack.contains(name@),
    {
        let mut i: usize = 0;
        while i < self.inline_stack.len()
            invariant
                i <= self.inline_stack@.len(),
                forall|k: int| 0 <= k < i ==> #[trigger] self.state().stack[k] != name@,
            decreases self.inline_stack@.len() - i,
        {
            assert(self.state().stack[i as int] == self.inline_stack@[i as int]@);
            if same_text(self.inline_stack[i].as_str(), name.as_str()) {
                return true;
            }
            i = i + 1;
        }
        assert(self.state().stack.len() == self.inline_stack@.len());
        false
    }

    /// The chain of calls that leads to `name`.
    fn chain_to(&self, name: &String) -> (s: String)
        ensures
            s@ == chain_text(self.state().stack.push(name@)),
    {
        let ghost all = self.state().stack.push(name@);
        let mut s = String::new();
        let n: usize = self.inline_stack.len();
        for i in 0..n
            invariant
                n == self.inline_stack@.len(),
                all == self.state().stack.push(name@),
                s@ == chain_text(all.take(i as int)),
        {
            proof {
                assert(all[i as int] == self.inline_stack@[i as int]@);
                assert(all.take(i + 1).drop_last() =~= all.take(i as int));
                assert(all.take(i + 1).last() == all[i as int]);
            }
            if i > 0 {
                s.append(" -> ");
            }
            s.append(self.inline_stack[i].as_str());
            proof {
                if i == 0 {
                    assert(all.take(1)[0] == all[0]);
                    assert(s@ =~= all[0]);
                }
            }
        }
        proof {
            assert(all.drop_last() =~= all.take(n as int));
            assert(all.last() == name@);
        }
        if n > 0 {
            s.append(" -> ");
        }
        s.append(name.as_str());
        proof {
            if n == 0 {
                assert(s@ =~= name@);
                assert(all.len() == 1);
            }
        }
        s
    }

    fn enter_call(
        &mut self,
        name: &String,
        frame: Vec<(String, Binding)>,
        slot: Option<RegId>,
    ) -> (ret_block: BlockId)
        requires
            old(self).inv(),
            near(old(self).state()),
        ensures
            old(self).kept(final(self)),
            (final(self).state(), ret_block) == enter_call(
                old(self).state(),
                name@,
                scope_view(frame@),
                slot,
            ),
    {
        let ghost prog = self.program();
        let ghost st = self.state();
        let mut label = String::from_str("call.");
        label.append(name.as_str());
        let body_block: u32 = self.add_block(label.as_str());
        let ghost st1 = self.state();
        let mut label = String::from_str("ret.");
        label.append(name.as_str());
        assert(self.state().d.blocks.len() == self.d.blocks@.len());
        let ret_block: u32 = self.add_block(label.as_str());
        proof {
            lemma_add_block(prog, st, "call."@ + name@);
            lemma_add_block(prog, st1, "ret."@ + name@);
        }
        self.commit_and_terminate(Term::Jump(body_block));
        self.enter(body_block);
        self.push_scope(frame);
        let ghost stack0 = self.inline_stack@;
        self.inline_stack.push(name.clone());
        assert(names_view(self.inline_stack@) =~= names_view(stack0).push(name@));
        self.ret_stack.push(ReturnTarget { slot, block: ret_block });
        ret_block
    }

    fn leave_call(&mut self, ret_block: BlockId)
        requires
            old(self).inv(),
            near(old(self).state()),
            old(self).state().scopes.len() >= 2,
            old(self).state().stack.len() >= 1,
            old(self).state().rets.len() >= 1,
            ret_block < old(self).state().d.blocks.len(),
            old(self).program() == old(self).program(),
        ensures
            old(self).kept(final(self)),
            final(self).state() == leave_call(old(self).state(), ret_block),
    {
        let ghost prog = self.program();
        let ghost st = self.state();
        let ghost stack0 = self.inline_stack@;
        self.ret_stack.pop();
        self.inline_stack.pop();
        assert(names_view(self.inline_stack@) =~= names_view(stack0).drop_last());
        self.pop_scope();
        proof {
            lemma_popped(prog, st);
        }
        self.commit_and_terminate(Term::Jump(ret_block));
        self.enter(ret_block);
    }

    // --- statements ------------------------------------------------------

    fn lower_block(&mut self, b: &Block) -> (r: LowerResult<()>)
        requires
            old(self).ready(),
            stmts_ok(b.tree()),
        ensures
            old(self).kept(final(self)),
            matches(
                lower_block(old(self).program(), old(self).state(), b.tree()),
                r,
                final(self).state(),
            ),
            r is Ok ==> final(self).ready(),
        decreases depth(old(self).program(), old(self).state()), stmts_size(b.tree(), 0), 9int,
    {
        let ghost prog = self.program();
        let ghost st = self.state();
        let ghost bt = b.tree();
        proof {
            lemma_block(prog, st, bt);
            lemma_scope(prog, st, seq![]);
        }
        let empty: Vec<(String, Binding)> = Vec::new();
        assert(scope_view(empty@) =~= seq![]);
        self.push_scope(empty);
        let ghost st0 = self.state();
        let n: usize = b.stmts.len();
        for i in 0..n
            invariant
                n == b.stmts@.len(),
                bt == b.tree(),
                stmts_ok(bt),
                prog == self.program(),
                prog == old(self).program(),
                st == old(self).state(),
                st0 == st.push_scope(seq![]),
                old(self).kept(self),
                self.ready(),
                self.state().scopes.len() == st0.scopes.len(),
                self.state().stack == st.stack,
                stmts_size(bt, i as nat) <= stmts_size(bt, 0),
                lower_stmts(prog, st0, bt, 0) == lower_stmts(prog, self.state(), bt, i as nat),
        {
            let ghost sti = self.state();
            proof {
                assert(bt[i as int] == b.stmts@[i as int].tree());
                assert(stmt_ok(bt[i as int]));
                lemma_stmt(prog, sti, bt[i as int]);
            }
            match self.lower_stmt(&b.stmts[i]) {
                Ok(_) => {},
                Err(m) => {
                    return Err(m);
                },
            }
        }
        self.pop_scope();
        Ok(())
    }

    fn lower_var(
        &mut self,
        ty: &Option<crate::ast::Type>,
        name: &String,
        init: &Expr,
        span: Span,
    ) -> (r: LowerResult<()>)
        requires
            old(self).ready(),
            stmt_ok(StmtTree::Var { ty: *ty, name: name@, init: init.tree(), span }),
        ensures
            old(self).kept(final(self)),
            matches(
                lower_stmt(
                    old(self).program(),
                    old(self).state(),
                    StmtTree::Var { ty: *ty, name: name@, init: init.tree(), span },
                ),
                r,
                final(self).state(),
            ),
        decreases depth(old(self).program(), old(self).state()), expr_size(init.tree()), 6int,
    {
        let ghost prog = self.program();
        let ghost st = self.state();
        proof {
            lemma_infer(prog, st, init.tree());
        }
        let width: u32 = match ty {
            Some(t) => t.width,
            None => match self.infer_width(init) {
                Ok(Some(w)) => w,
                Ok(None) => {
                    let mut m = message(
                        span,
                        ": cannot infer width of `",
                        name.as_str(),
                        "`; annotate it, e.g. `var u8 ",
                    );
                    m.append(name.as_str());
                    m.append(" = ...`");
                    return Err(m);
                },
                Err(m) => {
                    return Err(m);
                },
            },
        };
        proof {
            lemma_expr(prog, st, init.tree(), Some(width));
        }
        let v: u32 = match self.lower_expr(init, Some(width)) {
            Ok(v) => v,
            Err(m) => {
                return Err(m);
            },
        };
        let r: u32 = self.declare(name.as_str(), width);
        self.write(r, v);
        if self.roomy() {
            Ok(())
        } else {
            Err(Self::too_large())
        }
    }

    fn lower_if(
        &mut self,
        cond: &Expr,
        then_b: &Block,
        else_b: &Option<Block>,
        span: Span,
    ) -> (r: LowerResult<()>)
        requires
            old(self).ready(),
            expr_ok(cond.tree()),
            stmts_ok(then_b.tree()),
            else_b matches Some(b) ==> stmts_ok(b.tree()),
        ensures
            old(self).kept(final(self)),
            matches(
                lower_stmt(
                    old(self).program(),
                    old(self).state(),
                    StmtTree::If {
                        cond: cond.tree(),
                        then_b: then_b.tree(),
                        else_b: match else_b {
                            Some(b) => Some(b.tree()),
                            None => None,
                        },
                        span,
                    },
                ),
                r,
                final(self).state(),
            ),
        decreases
                depth(old(self).program(), old(self).state()),
                expr_size(cond.tree()) + stmts_size(then_b.tree(), 0) + (match else_b {
                    Some(b) => stmts_size(b.tree(), 0),
                    None => 0,
                }),
                6int,
    {
        let ghost prog = self.program();
        let ghost st = self.state();
        proof {
            lemma_sizes(cond.tree());
            lemma_cond(prog, st, cond.tree());
        }
        let c: u32 = match self.lower_cond(cond) {
            Ok(v) => v,
            Err(m) => {
                return Err(m);
            },
        };
        let ghost st1 = self.state();
        let then_id: u32 = self.add_block("if.then");
        let ghost st2 = self.state();
        let else_id: u32 = self.add_block("if.else");
        let ghost st3 = self.state();
        let join_id: u32 = self.add_block("if.join");
        let ghost st4 = self.state();
        let term = Term::Branch { cond: c, then_b: then_id, else_b: else_id };
        proof {
            lemma_add_block(prog, st1, "if.then"@);
            lemma_add_block(prog, st2, "if.else"@);
            lemma_add_block(prog, st3, "if.join"@);
            lemma_close(prog, st4, term);
            lemma_enter(prog, st4.close(term), then_id);
        }
        self.commit_and_terminate(term);
        self.enter(then_id);
        if !self.roomy() {
            return Err(Self::too_large());
        }
        let ghost st5 = self.state();
        proof {
            lemma_block(prog, st5, then_b.tree());
        }
        match self.lower_block(then_b) {
            Ok(_) => {},
            Err(m) => {
                return Err(m);
            },
        }
        let ghost st6 = self.state();
        proof {
            lemma_close(prog, st6, Term::Jump(join_id));
            lemma_enter(prog, st6.close(Term::Jump(join_id)), else_id);
        }
        self.commit_and_terminate(Term::Jump(join_id));
        self.enter(else_id);
        if !self.roomy() {
            return Err(Self::too_large());
        }
        let ghost st7 = self.state();
        if let Some(b) = else_b {
            proof {
                lemma_block(prog, st7, b.tree());
            }
            match self.lower_block(b) {
                Ok(_) => {},
                Err(m) => {
                    return Err(m);
                },
            }
        }
        self.commit_and_terminate(Term::Jump(join_id));
        self.enter(join_id);
        Ok(())
    }

    fn lower_while(&mut self, cond: &Expr, body: &Block, span: Span) -> (r: LowerResult<()>)
        requires
            old(self).ready(),
            expr_ok(cond.tree()),
            stmts_ok(body.tree()),
        ensures
            old(self).kept(final(self)),
            matches(
                lower_stmt(
                    old(self).program(),
                    old(self).state(),
                    StmtTree::While { cond: cond.tree(), body: body.tree(), span },
                ),
                r,
                final(self).state(),
            ),
        decreases
                depth(old(self).program(), old(self).state()),
                expr_size(cond.tree()) + stmts_size(body.tree(), 0),
                6int,
    {
        let ghost prog = self.program();
        let ghost st = self.state();
        let head: u32 = self.add_block("while.head");
        let ghost st1 = self.state();
        proof {
            lemma_sizes(cond.tree());
            lemma_add_block(prog, st, "while.head"@);
            lemma_close(prog, st1, Term::Jump(head));
            lemma_enter(prog, st1.close(Term::Jump(head)), head);
        }
        self.commit_and_terminate(Term::Jump(head));
        self.enter(head);
        if !self.roomy() {
            return Err(Self::too_large());
        }
        let ghost st2 = self.state();
        proof {
            lemma_cond(prog, st2, cond.tree());
        }
        let c: u32 = match self.lower_cond(cond) {
            Ok(v) => v,
            Err(m) => {
                return Err(m);
            },
        };
        let ghost st3 = self.state();
        let body_id: u32 = self.add_block("while.body");
        let ghost st4 = self.state();
        let exit_id: u32 = self.add_block("while.exit");
        let ghost st5 = self.state();
        let term = Term::Branch { cond: c, then_b: body_id, else_b: exit_id };
        proof {
            lemma_add_block(prog, st3, "while.body"@);
            lemma_add_block(prog, st4, "while.exit"@);
            lemma_close(prog, st5, term);
            lemma_enter(prog, st5.close(term), body_id);
        }
        self.commit_and_terminate(term);
        self.enter(body_id);
        if !self.roomy() {
            return Err(Self::too_large());
        }
        let ghost st6 = self.state();
        proof {
            lemma_block(prog, st6, body.tree());
        }
        match self.lower_block(body) {
            Ok(_) => {},
            Err(m) => {
                return Err(m);
            },
        }
        self.commit_and_terminate(Term::Jump(head));
        self.enter(exit_id);
        Ok(())
    }

    fn lower_return(&mut self, value: &Option<Expr>, span: Span) -> (r: LowerResult<()>)
        requires
            old(self).ready(),
            value matches Some(e) ==> expr_ok(e.tree()),
        ensures
            old(self).kept(final(self)),
            matches(
                lower_stmt(
                    old(self).program(),
                    old(self).state(),
                    StmtTree::Return {
                        value: match value {
                            Some(e) => Some(e.tree()),
                            None => None,
                        },
                        span,
                    },
                ),
                r,
                final(self).state(),
            ),
        decreases
                depth(old(self).program(), old(self).state()),
                (match value {
                    Some(e) => expr_size(e.tree()),
                    None => 0,
                }),
                6int,
    {
        let ghost prog = self.program();
        let ghost st = self.state();
        // Resolve the target before lowering, so a `return` outside any
        // function is reported rather than panicking.
        if self.ret_stack.len() == 0 {
            if value.is_some() {
                return Err(complain(span, ": `main` is a proc and cannot return a value"));
            }
            proof {
                lemma_close(prog, st, Term::Halt);
            }
            self.commit_and_terminate(Term::Halt);
        } else {
            let target: ReturnTarget = self.ret_stack[self.ret_stack.len() - 1];
            assert(target == st.rets.last());
            assert(target == st.rets[st.rets.len() - 1]);
            match (value, target.slot) {
                (Some(e), Some(r)) => {
                    let w: u32 = self.d.regs[r as usize].width;
                    proof {
                        assert(w == st.d.regs[r as int].width);
                        assert(width_ok(w));
                        lemma_expr(prog, st, e.tree(), Some(w));
                    }
                    let v: u32 = match self.lower_expr(e, Some(w)) {
                        Ok(v) => v,
                        Err(m) => {
                            return Err(m);
                        },
                    };
                    let ghost st1 = self.state();
                    proof {
                        assert(st.d.regs[r as int] == st1.d.regs[r as int]);
                        lemma_write(prog, st1, r, v);
                    }
                    self.write(r, v);
                },
                (Some(_), None) => {
                    return Err(complain(span, ": this proc does not return a value"));
                },
                (None, Some(_)) => {
                    return Err(complain(span, ": expected a return value"));
                },
                (None, None) => {},
            }
            proof {
                lemma_close(prog, self.state(), Term::Jump(target.block));
            }
            self.commit_and_terminate(Term::Jump(target.block));
        }
        let b: u32 = self.add_block("after.return");
        self.enter(b);
        if self.roomy() {
            Ok(())
        } else {
            Err(Self::too_large())
        }
    }

    fn lower_stmt(&mut self, s: &Stmt) -> (r: LowerResult<()>)
        requires
            old(self).ready(),
            stmt_ok(s.tree()),
        ensures
            old(self).kept(final(self)),
            matches(
                lower_stmt(old(self).program(), old(self).state(), s.tree()),
                r,
                final(self).state(),
            ),
            r is Ok ==> final(self).ready(),
        decreases depth(old(self).program(), old(self).state()), stmt_size(s.tree()), 7int,
    {
        let ghost prog = self.program();
        let ghost st = self.state();
        proof {
            lemma_stmt(prog, st, s.tree());
        }
        match s {
            Stmt::Var { ty, name, init, span } => self.lower_var(ty, name, init, *span),
            Stmt::Assign { name, value, span } => {
                proof {
                    lemma_lookup(prog, st, name@);
                }
                let r: u32 = match self.lookup(name.as_str()) {
                    None => {
                        return Err(message(*span, ": unknown variable `", name.as_str(), "`"));
                    },
                    Some(Binding::Input(_)) => {
                        return Err(
                            message(*span, ": cannot assign to input port `", name.as_str(), "`"),
                        );
                    },
                    Some(Binding::Reg(r)) => r,
                };
                let w: u32 = self.d.regs[r as usize].width;
                assert(w == st.d.regs[r as int].width);
                match self.lower_expr(value, Some(w)) {
                    Ok(v) => {
                        self.write(r, v);
                        Ok(())
                    },
                    Err(m) => Err(m),
                }
            },
            Stmt::Nested(b) => self.lower_block(b),
            Stmt::If { cond, then_b, else_b, span } => self.lower_if(cond, then_b, else_b, *span),
            Stmt::While { cond, body, span } => self.lower_while(cond, body, *span),
            Stmt::Return { value, span } => self.lower_return(value, *span),
        }
    }
}

/// Once binding parameters has failed it stays failed.
proof fn lemma_bind_stuck(
    st: Low,
    params: Seq<ParamTree>,
    vals: Seq<NodeId>,
    i: nat,
    n: nat,
)
    requires
        i <= n,
    ensures
        bind_params(st, params, vals, i) matches Err(m) ==> bind_params(st, params, vals, n)
            == Err::<(Low, Seq<(Seq<char>, Binding)>), _>(m),
    decreases n - i,
{
    if i < n {
        lemma_bind_stuck(st, params, vals, i, (n - 1) as nat);
    }
}

// --- whole programs ------------------------------------------------------

/// Can control go from `b` straight to block `t`?
pub open spec fn leads_to(b: BlockTree, t: int) -> bool {
    match b.term {
        Term::Jump(x) => x == t,
        Term::Branch { then_b, else_b, .. } => then_b == t || else_b == t,
        Term::Halt => false,
    }
}

pub open spec fn is_path(blocks: Seq<BlockTree>, from: int, to: int, path: Seq<int>) -> bool {
    &&& path.len() > 0
    &&& path[0] == from
    &&& path[path.len() - 1] == to
    &&& forall|i: int| 0 <= i < path.len() ==> 0 <= #[trigger] path[i] < blocks.len()
    &&& forall|i: int|
        0 <= i < path.len() - 1 ==> leads_to(blocks[#[trigger] path[i]], path[i + 1])
}

/// Can control get from block `from` to block `to`?
pub open spec fn reachable(blocks: Seq<BlockTree>, from: int, to: int) -> bool {
    exists|path: Seq<int>| is_path(blocks, from, to, path)
}

/// Those of the first `n` blocks that can be reached, in order.
pub open spec fn reached(blocks: Seq<BlockTree>, from: int, n: nat) -> Seq<BlockId>
    decreases n,
{
    if n == 0 {
        seq![]
    } else {
        let before = reached(blocks, from, (n - 1) as nat);
        if reachable(blocks, from, n - 1) {
            before.push((n - 1) as u32)
        } else {
            before
        }
    }
}

/// The number that block `b` gets when those that cannot be reached are dropped.
pub open spec fn rank(blocks: Seq<BlockTree>, from: int, b: int) -> u32 {
    reached(blocks, from, b as nat).len() as u32
}

pub open spec fn retarget(blocks: Seq<BlockTree>, from: int, term: Term) -> Term {
    match term {
        Term::Jump(t) => Term::Jump(rank(blocks, from, t as int)),
        Term::Branch { cond, then_b, else_b } => Term::Branch {
            cond,
            then_b: rank(blocks, from, then_b as int),
            else_b: rank(blocks, from, else_b as int),
        },
        Term::Halt => Term::Halt,
    }
}

/// Without the blocks that cannot be reached from the entry.
pub open spec fn pruned(d: DesignTree) -> DesignTree {
    let from = d.entry as int;
    let keep = reached(d.blocks, from, d.blocks.len());
    DesignTree {
        blocks: Seq::new(
            keep.len(),
            |k: int|
                BlockTree {
                    label: d.blocks[keep[k] as int].label,
                    assigns: d.blocks[keep[k] as int].assigns,
                    term: retarget(d.blocks, from, d.blocks[keep[k] as int].term),
                },
        ),
        entry: rank(d.blocks, from, from),
        ..d
    }
}

/// Where lowering starts.
pub open spec fn empty_state() -> Low {
    Low {
        d: DesignTree {
            graph: Graph { nodes: seq![], widths: seq![] },
            regs: seq![],
            inputs: seq![],
            outputs: seq![],
            blocks: seq![],
            entry: 0,
        },
        scopes: seq![seq![]],
        env: Map::empty(),
        cur: 0,
        stack: seq![],
        rets: seq![],
        temps: 0,
    }
}

/// Is there an earlier port of the same name?
pub open spec fn port_repeats(prog: ProgramTree, i: int) -> bool {
    exists|j: int| 0 <= j < i && (#[trigger] prog.ports[j]).name == prog.ports[i].name
}

/// Is there an earlier function of the same name?
pub open spec fn func_repeats(prog: ProgramTree, i: int) -> bool {
    exists|j: int| 0 <= j < i && (#[trigger] prog.funcs[j]).name == prog.funcs[i].name
}

/// One port: an input, or a register that is shown outside.
pub open spec fn add_port(st: Low, p: crate::ast::PortTree) -> Low {
    match p.dir {
        PortDir::In => {
            let i = st.d.inputs.len() as u32;
            (Low {
                d: DesignTree {
                    inputs: st.d.inputs.push(Signal { name: p.name, width: p.ty.width }),
                    ..st.d
                },
                ..st
            }).bind(p.name, Binding::Input(i))
        },
        PortDir::Out => {
            let (st1, r) = st.add_reg(p.name, p.ty.width);
            (Low {
                d: DesignTree { outputs: st1.d.outputs.push((p.name, r)), ..st1.d },
                ..st1
            }).bind(p.name, Binding::Reg(r))
        },
    }
}

/// The first `n` ports.
pub open spec fn lower_ports(prog: ProgramTree, n: nat) -> Result<Low, Seq<char>>
    decreases n,
{
    if n == 0 {
        Ok(empty_state())
    } else {
        match lower_ports(prog, (n - 1) as nat) {
            Err(m) => Err(m),
            Ok(st) => {
                let p = prog.ports[n - 1];
                if port_repeats(prog, n - 1) {
                    Err(span_text(p.span) + ": duplicate port `"@ + p.name + "`"@)
                } else {
                    let st1 = add_port(st, p);
                    if st1.roomy() {
                        Ok(st1)
                    } else {
                        Err(too_large())
                    }
                }
            },
        }
    }
}

/// The first of the first `n` functions whose name was there before.
pub open spec fn repeated_func(prog: ProgramTree, n: nat) -> Option<int>
    decreases n,
{
    if n == 0 {
        None
    } else {
        match repeated_func(prog, (n - 1) as nat) {
            Some(i) => Some(i),
            None => if func_repeats(prog, n - 1) {
                Some(n - 1)
            } else {
                None
            },
        }
    }
}

/// The state in which the body of `main` is lowered.
pub open spec fn enter_main(st: Low) -> Low {
    let (st1, entry) = st.add_block("entry"@);
    let st2 = Low { d: DesignTree { entry, ..st1.d }, cur: entry, ..st1 }.push_scope(seq![]);
    Low { stack: st2.stack.push("main"@), ..st2 }
}

/// The design that a program becomes, or the first complaint about it.
pub open spec fn design_of(prog: ProgramTree) -> Result<DesignTree, Seq<char>> {
    match lower_ports(prog, prog.ports.len()) {
        Err(m) => Err(m),
        Ok(st) => match repeated_func(prog, prog.funcs.len()) {
            Some(i) => Err(
                span_text(prog.funcs[i].span) + ": duplicate function `"@ + prog.funcs[i].name
                    + "`"@,
            ),
            None => match func_index(prog, "main"@, 0) {
                None => Err("program has no `proc main()` entry point"@),
                Some(k) => {
                    let main = prog.funcs[k];
                    if main.params.len() > 0 {
                        Err(span_text(main.span) + ": `main` must take no parameters"@)
                    } else if main.ret is Some {
                        Err(span_text(main.span) + ": `main` must be a `proc`, not a `fn`"@)
                    } else {
                        match lower_block(prog, enter_main(st), main.body) {
                            Err(m) => Err(m),
                            Ok((st1, _)) => Ok(pruned(st1.close(Term::Halt).d)),
                        }
                    }
                },
            },
        },
    }
}

// --- dropping blocks -----------------------------------------------------

pub proof fn lemma_reach_step(blocks: Seq<BlockTree>, from: int, b: int, t: int)
    requires
        reachable(blocks, from, b),
        leads_to(blocks[b], t),
        0 <= t < blocks.len(),
    ensures
        reachable(blocks, from, t),
{
    let path = choose|path: Seq<int>| is_path(blocks, from, b, path);
    let longer = path.push(t);
    assert forall|i: int| 0 <= i < longer.len() implies 0 <= #[trigger] longer[i] < blocks.len() by {
        if i < path.len() {
            assert(longer[i] == path[i]);
        }
    }
    assert forall|i: int| 0 <= i < longer.len() - 1 implies leads_to(
        blocks[#[trigger] longer[i]],
        longer[i + 1],
    ) by {
        assert(longer[i] == path[i]);
        if i < path.len() - 1 {
            assert(longer[i + 1] == path[i + 1]);
        }
    }
    assert(is_path(blocks, from, t, longer));
}

/// Whatever is closed under going on and holds the start holds all of a path.
proof fn lemma_path_marked(
    blocks: Seq<BlockTree>,
    from: int,
    to: int,
    path: Seq<int>,
    marked: Seq<bool>,
)
    requires
        is_path(blocks, from, to, path),
        marked.len() == blocks.len(),
        marked[from],
        forall|b: int, t: int|
            0 <= b < blocks.len() && 0 <= t < blocks.len() && #[trigger] marked[b] && leads_to(
                blocks[b],
                t,
            ) ==> #[trigger] marked[t],
    ensures
        marked[to],
    decreases path.len(),
{
    if path.len() > 1 {
        let shorter = path.drop_last();
        let last = shorter.len() - 1;
        assert forall|i: int| 0 <= i < shorter.len() implies 0 <= #[trigger] shorter[i]
            < blocks.len() by {
            assert(shorter[i] == path[i]);
        }
        assert forall|i: int| 0 <= i < shorter.len() - 1 implies leads_to(
            blocks[#[trigger] shorter[i]],
            shorter[i + 1],
        ) by {
            assert(shorter[i] == path[i]);
            assert(shorter[i + 1] == path[i + 1]);
        }
        assert(is_path(blocks, from, shorter[last], shorter));
        lemma_path_marked(blocks, from, shorter[last], shorter, marked);
        assert(leads_to(blocks[path[last]], path[last + 1]));
        assert(marked[shorter[last]]);
    }
}

pub proof fn lemma_reached(blocks: Seq<BlockTree>, from: int, n: nat)
    requires
        n <= blocks.len(),
        blocks.len() <= u32::MAX,
    ensures
        reached(blocks, from, n).len() <= n,
        forall|k: int|
            0 <= k < reached(blocks, from, n).len() ==> (#[trigger] reached(blocks, from, n)[k])
                < n && reachable(blocks, from, reached(blocks, from, n)[k] as int),
        forall|b: int|
            0 <= b < n && #[trigger] reachable(blocks, from, b) ==> rank(blocks, from, b)
                < reached(blocks, from, n).len(),
    decreases n,
{
    if n > 0 {
        lemma_reached(blocks, from, (n - 1) as nat);
        let before = reached(blocks, from, (n - 1) as nat);
        let all = reached(blocks, from, n);
        assert forall|k: int| 0 <= k < all.len() implies (#[trigger] all[k]) < n && reachable(
            blocks,
            from,
            all[k] as int,
        ) by {
            if k < before.len() {
                assert(all[k] == before[k]);
            }
        }
    }
}

/// Which blocks can be reached from the entry?
fn mark_reachable(d: &Design) -> (seen: Vec<bool>)
    requires
        d.entry < d.blocks@.len(),
        d.blocks@.len() <= u32::MAX,
        forall|b: int, t: int|
            0 <= b < d.blocks@.len() && leads_to(#[trigger] d.tree().blocks[b], t) ==> 0
                <= #[trigger] ident(t) < d.blocks@.len(),
    ensures
        seen@.len() == d.blocks@.len(),
        forall|b: int|
            0 <= b < d.blocks@.len() ==> #[trigger] seen@[b] == reachable(
                d.tree().blocks,
                d.entry as int,
                b,
            ),
{
    let ghost blocks = d.tree().blocks;
    let ghost from = d.entry as int;
    let n: usize = d.blocks.len();
    let mut seen: Vec<bool> = vec![false; n];
    let mut stack: Vec<BlockId> = Vec::new();
    stack.push(d.entry);
    proof {
        let path = seq![from];
        assert(is_path(blocks, from, from, path));
        assert(stack@[0] == d.entry);
        assert(stack@.contains(d.entry));
    }
    while stack.len() > 0
        invariant
            n == d.blocks@.len(),
            n <= u32::MAX,
            blocks == d.tree().blocks,
            from == d.entry,
            d.entry < n,
            seen@.len() == n,
            forall|b: int, t: int|
                0 <= b < d.blocks@.len() && leads_to(#[trigger] d.tree().blocks[b], t) ==> 0
                    <= #[trigger] ident(t) < d.blocks@.len(),
            forall|k: int|
                0 <= k < stack@.len() ==> (#[trigger] stack@[k]) < n && reachable(
                    blocks,
                    from,
                    stack@[k] as int,
                ),
            forall|b: int| 0 <= b < n && #[trigger] seen@[b] ==> reachable(blocks, from, b),
            seen@[from] || stack@.contains(d.entry),
            forall|b: int, t: int|
                0 <= b < n && 0 <= t < n && #[trigger] seen@[b] && leads_to(blocks[b], t) ==> (
                #[trigger] seen@[t]) || stack@.contains(t as u32),
        decreases unseen(seen@), stack@.len(),
    {
        let ghost stack0 = stack@;
        let ghost seen0 = seen@;
        let b: u32 = stack.pop().unwrap();
        proof {
            assert(stack0[stack0.len() - 1] == b);
            assert forall|x: u32| stack0.contains(x) implies x == b || stack@.contains(x) by {
                let k = choose|k: int| 0 <= k < stack0.len() && stack0[k] == x;
                if k < stack@.len() {
                    assert(stack@[k] == x);
                }
            }
        }
        if !seen[b as usize] {
            seen.set(b as usize, true);
            let ghost stack1 = stack@;
            proof {
                lemma_unseen_update(seen0, b as int);
                assert(blocks[b as int] == block_tree(d.blocks@[b as int]));
            }
            match d.blocks[b as usize].term {
                Term::Jump(t) => {
                    proof {
                        assert(leads_to(d.tree().blocks[b as int], t as int));
                        assert(0 <= ident(t as int) < n);
                        lemma_reach_step(blocks, from, b as int, t as int);
                    }
                    stack.push(t);
                    assert(stack@[stack1.len() as int] == t);
                },
                Term::Branch { then_b, else_b, .. } => {
                    proof {
                        assert(leads_to(d.tree().blocks[b as int], then_b as int));
                        assert(leads_to(d.tree().blocks[b as int], else_b as int));
                        assert(0 <= ident(then_b as int) < n);
                        assert(0 <= ident(else_b as int) < n);
                        lemma_reach_step(blocks, from, b as int, then_b as int);
                        lemma_reach_step(blocks, from, b as int, else_b as int);
                    }
                    stack.push(then_b);
                    stack.push(else_b);
                    assert(stack@[stack1.len() as int] == then_b);
                    assert(stack@[stack1.len() as int + 1] == else_b);
                },
                Term::Halt => {},
            }
            proof {
                assert forall|x: u32| stack1.contains(x) implies stack@.contains(x) by {
                    let k = choose|k: int| 0 <= k < stack1.len() && stack1[k] == x;
                    assert(stack@[k] == x);
                }
                assert forall|c: int, t: int|
                    0 <= c < n && 0 <= t < n && #[trigger] seen@[c] && leads_to(
                        blocks[c],
                        t,
                    ) implies (#[trigger] seen@[t]) || stack@.contains(t as u32) by {
                    if c != b {
                        assert(seen0[c]);
                        assert(seen0[t] || stack0.contains(t as u32));
                    }
                }
            }
        } else {
            proof {
                assert forall|c: int, t: int|
                    0 <= c < n && 0 <= t < n && #[trigger] seen@[c] && leads_to(
                        blocks[c],
                        t,
                    ) implies (#[trigger] seen@[t]) || stack@.contains(t as u32) by {
                    assert(seen0[t] || stack0.contains(t as u32));
                }
            }
        }
    }
    proof {
        assert forall|b: int| 0 <= b < n implies #[trigger] seen@[b] == reachable(
            blocks,
            from,
            b,
        ) by {
            if reachable(blocks, from, b) {
                let path = choose|path: Seq<int>| is_path(blocks, from, b, path);
                lemma_path_marked(blocks, from, b, path, seen@);
            }
        }
    }
    seen
}

/// A number, as something to point at.
pub open spec fn ident(t: int) -> int {
    t
}

fn copy_assigns(a: &Vec<(RegId, NodeId)>) -> (b: Vec<(RegId, NodeId)>)
    ensures
        b@ == a@,
{
    let mut b: Vec<(RegId, NodeId)> = Vec::new();
    for i in 0..a.len()
        invariant
            b@ == a@.take(i as int),
    {
        b.push(a[i]);
        assert(b@ =~= a@.take(i + 1));
    }
    assert(a@.take(a@.len() as int) =~= a@);
    b
}

/// Drop blocks unreachable from the entry (e.g. code after an early `return`),
/// renumbering the survivors.
fn prune_unreachable(d: &mut Design)
    requires
        old(d).wf(),
        old(d).zero_start(),
        old(d).entry < old(d).blocks@.len(),
        old(d).blocks@.len() <= u32::MAX,
        forall|b: int, t: int|
            0 <= b < old(d).blocks@.len() && leads_to(#[trigger] old(d).tree().blocks[b], t) ==> 0
                <= #[trigger] ident(t) < old(d).blocks@.len(),
    ensures
        final(d).wf(),
        final(d).zero_start(),
        final(d).tree() == pruned(old(d).tree()),
{
    let ghost d0 = *d;
    let ghost blocks = d.tree().blocks;
    let ghost from = d.entry as int;
    let n: usize = d.blocks.len();
    let seen = mark_reachable(d);
    let mut ranks: Vec<BlockId> = Vec::new();
    let mut count: u32 = 0;
    for i in 0..n
        invariant
            n == blocks.len(),
            n <= u32::MAX,
            seen@.len() == n,
            forall|b: int| 0 <= b < n ==> #[trigger] seen@[b] == reachable(blocks, from, b),
            ranks@.len() == i,
            count <= i,
            count == reached(blocks, from, i as nat).len(),
            forall|b: int| 0 <= b < i ==> #[trigger] ranks@[b] == rank(blocks, from, b),
    {
        ranks.push(count);
        if seen[i] {
            count = count + 1;
        }
    }
    let mut kept: Vec<BasicBlock> = Vec::new();
    for i in 0..n
        invariant
            n == blocks.len(),
            n == d.blocks@.len(),
            n <= u32::MAX,
            *d == d0,
            blocks == d.tree().blocks,
            from == d.entry,
            seen@.len() == n,
            ranks@.len() == n,
            forall|b: int| 0 <= b < n ==> #[trigger] seen@[b] == reachable(blocks, from, b),
            forall|b: int| 0 <= b < n ==> #[trigger] ranks@[b] == rank(blocks, from, b),
            forall|b: int, t: int|
                0 <= b < d.blocks@.len() && leads_to(#[trigger] d.tree().blocks[b], t) ==> 0
                    <= #[trigger] ident(t) < d.blocks@.len(),
            kept@.len() == reached(blocks, from, i as nat).len(),
            forall|k: int|
                0 <= k < kept@.len() ==> block_tree(#[trigger] kept@[k]) == (BlockTree {
                    label: blocks[reached(blocks, from, i as nat)[k] as int].label,
                    assigns: blocks[reached(blocks, from, i as nat)[k] as int].assigns,
                    term: retarget(
                        blocks,
                        from,
                        blocks[reached(blocks, from, i as nat)[k] as int].term,
                    ),
                }),
    {
        if seen[i] {
            let b = &d.blocks[i];
            assert(blocks[i as int] == block_tree(*b));
            let term = match b.term {
                Term::Jump(t) => {
                    assert(leads_to(d.tree().blocks[i as int], t as int));
                    assert(0 <= ident(t as int) < n);
                    Term::Jump(ranks[t as usize])
                },
                Term::Branch { cond, then_b, else_b } => {
                    assert(leads_to(d.tree().blocks[i as int], then_b as int));
                    assert(leads_to(d.tree().blocks[i as int], else_b as int));
                    assert(0 <= ident(then_b as int) < n);
                    assert(0 <= ident(else_b as int) < n);
                    Term::Branch {
                        cond,
                        then_b: ranks[then_b as usize],
                        else_b: ranks[else_b as usize],
                    }
                },
                Term::Halt => Term::Halt,
            };
            let ghost kept0 = kept@;
            let label = b.label.clone();
            let assigns = copy_assigns(&b.assigns);
            kept.push(BasicBlock { label, assigns, term });
            proof {
                let before = reached(blocks, from, i as nat);
                let now = reached(blocks, from, (i + 1) as nat);
                assert(now =~= before.push(i as u32));
                assert forall|k: int| 0 <= k < kept@.len() implies block_tree(#[trigger] kept@[k])
                    == (BlockTree {
                    label: blocks[now[k] as int].label,
                    assigns: blocks[now[k] as int].assigns,
                    term: retarget(blocks, from, blocks[now[k] as int].term),
                }) by {
                    if k < kept0.len() {
                        assert(kept@[k] == kept0[k]);
                        assert(now[k] == before[k]);
                    }
                }
            }
        }
    }
    let entry: u32 = ranks[d.entry as usize];
    d.blocks = kept;
    d.entry = entry;
    proof {
        let want = pruned(d0.tree());
        assert(d.tree().blocks =~= want.blocks);
        assert(d.tree().regs =~= want.regs);
        assert(d.tree().inputs =~= want.inputs);
        assert(d.tree().outputs =~= want.outputs);
    }
}

// --- lowering a program --------------------------------------------------

impl<'p> Lowerer<'p> {
    /// Nothing was lowered yet.
    pub closed spec fn fresh(&self) -> bool {
        &&& self.d.wf()
        &&& self.d.zero_start()
        &&& self.state() == empty_state()
    }

    pub fn new(prog: &'p Program) -> (l: Lowerer<'p>)
        ensures
            l.fresh(),
            l.program() == prog.tree(),
    {
        let first: Vec<(String, Binding)> = Vec::new();
        let l = Lowerer {
            prog,
            d: Design::new(),
            scopes: vec![first],
            env: HashMap::new(),
            cur: 0,
            inline_stack: Vec::new(),
            ret_stack: Vec::new(),
            temp_counter: 0,
        };
        proof {
            assert(l.scopes@[0] == first);
            assert(scope_view(l.scopes@[0]@) =~= seq![]);
            assert(scopes_view(l.scopes@) =~= seq![seq![]]);
            assert(l.state().d =~= empty_state().d);
            assert(l.state() =~= empty_state());
        }
        l
    }

    /// Declare one port.
    fn add_port(&mut self, p: &crate::ast::Port)
        requires
            old(self).d.wf(),
            old(self).d.zero_start(),
            old(self).state().roomy(),
            old(self).scopes@.len() > 0,
        ensures
            old(self).kept(final(self)),
            final(self).state() == add_port(old(self).state(), p.tree()),
    {
        let ghost d0 = self.d;
        match p.dir {
            PortDir::In => {
                let i: u32 = self.d.add_input(p.name.as_str(), p.ty.width);
                proof {
                    assert(self.d.tree().inputs =~= d0.tree().inputs.push(
                        Signal { name: p.name@, width: p.ty.width },
                    ));
                    assert(self.d.tree().regs =~= d0.tree().regs);
                    assert(self.d.tree().outputs =~= d0.tree().outputs);
                    assert(self.d.tree().blocks =~= d0.tree().blocks);
                }
                self.bind(p.name.as_str(), Binding::Input(i));
            },
            PortDir::Out => {
                let r: u32 = self.add_reg(p.name.as_str(), p.ty.width);
                let ghost d1 = self.d;
                self.d.outputs.push((p.name.clone(), r));
                proof {
                    assert(self.d.tree().outputs =~= d1.tree().outputs.push((p.name@, r)));
                    assert(self.d.tree().regs =~= d1.tree().regs);
                    assert(self.d.tree().inputs =~= d1.tree().inputs);
                    assert(self.d.tree().blocks =~= d1.tree().blocks);
                }
                self.bind(p.name.as_str(), Binding::Reg(r));
            },
        }
    }

    /// Ports first, so they are visible everywhere.
    fn lower_ports(&mut self) -> (r: LowerResult<()>)
        requires
            old(self).fresh(),
            prog_ok(old(self).program()),
        ensures
            old(self).kept(final(self)),
            match lower_ports(old(self).program(), old(self).program().ports.len()) {
                Ok(st) => r is Ok && final(self).state() == st,
                Err(m) => r matches Err(e) && e@ == m,
            },
    {
        let program = self.prog;
        let ghost prog = self.program();
        let n: usize = program.ports.len();
        for i in 0..n
            invariant
                n == program.ports@.len(),
                prog == program.tree(),
                program == self.prog,
                prog_ok(prog),
                old(self).kept(self),
                lower_ports(prog, i as nat) == Ok::<_, Seq<char>>(self.state()),
        {
            let p = &program.ports[i];
            proof {
                assert(prog.ports[i as int] == p.tree());
                lemma_ports(prog, i as nat);
                lemma_ports_stuck(prog, (i + 1) as nat, prog.ports.len());
            }
            let mut j: usize = 0;
            while j < i
                invariant
                    j <= i,
                    i < n,
                    n == program.ports@.len(),
                    prog == program.tree(),
                    p.tree() == prog.ports[i as int],
                    forall|k: int|
                        0 <= k < j ==> (#[trigger] prog.ports[k]).name != prog.ports[i as int].name,
                    lower_ports(prog, i as nat) is Ok,
                    lower_ports(prog, (i + 1) as nat) matches Err(m) ==> lower_ports(
                        prog,
                        prog.ports.len(),
                    ) == Err::<Low, _>(m),
                    old(self).kept(self),
                    old(self).program() == prog,
                decreases i - j,
            {
                assert(prog.ports[j as int] == program.ports@[j as int].tree());
                if same_text(program.ports[j].name.as_str(), p.name.as_str()) {
                    assert(port_repeats(prog, i as int));
                    return Err(message(p.span, ": duplicate port `", p.name.as_str(), "`"));
                }
                j = j + 1;
            }
            assert(!port_repeats(prog, i as int));
            assert(self.state().scopes.len() == self.scopes@.len()) by {
                assert(self.state().scopes == scopes_view(self.scopes@));
            }
            assert(i > 0 ==> self.state().roomy());
            assert(i == 0 ==> self.state() == empty_state());
            self.add_port(p);
            if !self.roomy() {
                return Err(Self::too_large());
            }
        }
        Ok(())
    }

    /// The body of `main`, in a scope of its own, and the end of the program.
    fn lower_main(&mut self, main: &Func) -> (r: LowerResult<()>)
        requires
            old(self).d.wf(),
            old(self).d.zero_start(),
            prog_ok(old(self).program()),
            ports_ok(old(self).state()),
            old(self).state().roomy(),
            func_index(old(self).program(), "main"@, 0) is Some,
            func_ok(main.tree()),
        ensures
            old(self).kept(final(self)),
            match lower_block(
                old(self).program(),
                enter_main(old(self).state()),
                main.tree().body,
            ) {
                Ok((st, _)) => r is Ok && final(self).d.tree() == st.close(Term::Halt).d && design_ok(
                    final(self).d.tree(),
                ) && final(self).d.entry == 0 && 0 < final(self).d.blocks@.len() <= u32::MAX,
                Err(m) => r matches Err(e) && e@ == m,
            },
    {
        let ghost prog = self.program();
        let ghost st = self.state();
        let entry: u32 = self.add_block("entry");
        let ghost d1 = self.d;
        self.cur = entry;
        self.d.entry = entry;
        proof {
            assert(self.d.tree().regs =~= d1.tree().regs);
            assert(self.d.tree().inputs =~= d1.tree().inputs);
            assert(self.d.tree().outputs =~= d1.tree().outputs);
            assert(self.d.tree().blocks =~= d1.tree().blocks);
        }
        let scope: Vec<(String, Binding)> = Vec::new();
        assert(scope_view(scope@) =~= seq![]);
        self.push_scope(scope);
        let ghost stack0 = self.inline_stack@;
        self.inline_stack.push(String::from_str("main"));
        proof {
            assert(names_view(self.inline_stack@) =~= names_view(stack0).push("main"@));
            assert(self.state() =~= enter_main(st));
            lemma_enter_main(prog, st);
        }
        if !self.roomy() {
            assert(false) by {
                assert(st.d.blocks.len() == 0);
            }
        }
        proof {
            lemma_block(prog, self.state(), main.body.tree());
        }
        match self.lower_block(&main.body) {
            Ok(_) => {},
            Err(m) => {
                return Err(m);
            },
        }
        proof {
            lemma_close(prog, self.state(), Term::Halt);
        }
        self.commit_and_terminate(Term::Halt);
        Ok(())
    }

    pub fn lower(self) -> (r: LowerResult<Design>)
        requires
            self.fresh(),
            prog_ok(self.program()),
        ensures
            match design_of(self.program()) {
                Ok(t) => r matches Ok(d) && d.tree() == t && design_ok(t) && synthesizable(&d)
                    && writes_fit(&d),
                Err(m) => r matches Err(e) && e@ == m,
            },
    {
        let program = self.prog;
        let ghost prog = self.program();
        let mut lw = self;
        proof {
            lemma_ports(prog, prog.ports.len());
            lemma_func_index(prog, "main"@, 0);
        }
        match lw.lower_ports() {
            Ok(_) => {},
            Err(m) => {
                return Err(m);
            },
        }
        let n: usize = program.funcs.len();
        for i in 0..n
            invariant
                n == program.funcs@.len(),
                prog == program.tree(),
                prog == self.program(),
                lower_ports(prog, prog.ports.len()) is Ok,
                repeated_func(prog, i as nat) is None,
        {
            let f = &program.funcs[i];
            assert(prog.funcs[i as int] == f.tree());
            let mut j: usize = 0;
            while j < i
                invariant
                    j <= i,
                    i < n,
                    n == program.funcs@.len(),
                    prog == program.tree(),
                    prog == self.program(),
                    lower_ports(prog, prog.ports.len()) is Ok,
                    f.tree() == prog.funcs[i as int],
                    repeated_func(prog, i as nat) is None,
                    forall|k: int|
                        0 <= k < j ==> (#[trigger] prog.funcs[k]).name != prog.funcs[i as int].name,
                decreases i - j,
            {
                assert(prog.funcs[j as int] == program.funcs@[j as int].tree());
                if same_text(program.funcs[j].name.as_str(), f.name.as_str()) {
                    proof {
                        assert(func_repeats(prog, i as int));
                        assert(repeated_func(prog, (i + 1) as nat) == Some(i as int));
                        lemma_repeated(prog, (i + 1) as nat, prog.funcs.len());
                    }
                    return Err(message(f.span, ": duplicate function `", f.name.as_str(), "`"));
                }
                j = j + 1;
            }
            assert(!func_repeats(prog, i as int));
        }
        let k: usize = match find_func(program, "main") {
            Some(k) => k,
            None => {
                return Err(String::from_str("program has no `proc main()` entry point"));
            },
        };
        let main = &program.funcs[k];
        assert(prog.funcs[k as int] == main.tree());
        assert(func_ok(prog.funcs[k as int]));
        if main.params.len() > 0 {
            return Err(complain(main.span, ": `main` must take no parameters"));
        }
        if main.ret.is_some() {
            return Err(complain(main.span, ": `main` must be a `proc`, not a `fn`"));
        }
        match lw.lower_main(main) {
            Ok(_) => {},
            Err(m) => {
                return Err(m);
            },
        }
        let mut d = lw.d;
        proof {
            lemma_targets(&d);
            lemma_pruned(d.tree());
        }
        prune_unreachable(&mut d);
        proof {
            lemma_synthesizable(&d);
        }
        Ok(d)
    }
}

proof fn lemma_targets(d: &Design)
    requires
        design_ok(d.tree()),
    ensures
        forall|b: int, t: int|
            0 <= b < d.blocks@.len() && leads_to(#[trigger] d.tree().blocks[b], t) ==> 0
                <= #[trigger] ident(t) < d.blocks@.len(),
{
    assert forall|b: int, t: int|
        0 <= b < d.blocks@.len() && leads_to(#[trigger] d.tree().blocks[b], t) implies 0
        <= #[trigger] ident(t) < d.blocks@.len() by {
        assert(crate::lower_types::block_ok(d.tree(), d.tree().blocks[b]));
    }
}

proof fn lemma_ports_stuck(prog: ProgramTree, i: nat, n: nat)
    requires
        i <= n,
    ensures
        lower_ports(prog, i) matches Err(m) ==> lower_ports(prog, n) == Err::<Low, _>(m),
    decreases n - i,
{
    if i < n {
        lemma_ports_stuck(prog, i, (n - 1) as nat);
    }
}

proof fn lemma_repeated(prog: ProgramTree, i: nat, n: nat)
    requires
        i <= n,
        repeated_func(prog, i) is Some,
    ensures
        repeated_func(prog, n) == repeated_func(prog, i),
    decreases n - i,
{
    if i < n {
        lemma_repeated(prog, i, (n - 1) as nat);
    }
}

/// Turn a program into a design, or say what is wrong with it.
pub fn lower_program(prog: &Program) -> (r: LowerResult<Design>)
    requires
        prog_ok(prog.tree()),
    ensures
        match design_of(prog.tree()) {
            Ok(t) => r matches Ok(d) && d.tree() == t && design_ok(t) && synthesizable(&d)
                && writes_fit(&d),
            Err(m) => r matches Err(e) && e@ == m,
        },
{
    let l = Lowerer::new(prog);
    l.lower()
}

} // verus!
