//! What the expressions that a design builds compute.
//!
//! Folding constants, sharing nodes, sorting operands and cancelling negations
//! never change a value: each constructor hands back a node whose value is the
//! operation applied to the values of its operands.
use crate::bits::{
    bit, fits, flag, lemma_bit_logic, lemma_fits_bound, lemma_fits_logic, lemma_flag,
    lemma_mask_bit, lemma_mask_idempotent, lemma_mask_is_mod, lemma_mask_of_wrapped, lemma_one_bit,
    lemma_same_bits, lemma_shr_fits, lemma_small, lemma_zero_bits, mask_of,
};
use crate::ir::{
    folded_as, high, low, node_operands, node_value, operands_below, typed_as, Graph, Node, NodeId,
};
use vstd::arithmetic::power2::{lemma_pow2_pos, pow2};
use vstd::prelude::*;

verus! {

/// Every register holds a value that fits in its width.
pub open spec fn regs_fit(rw: Seq<u32>, regs: Seq<u64>) -> bool {
    &&& regs.len() == rw.len()
    &&& forall|r: int| 0 <= r < rw.len() ==> fits(#[trigger] regs[r], rw[r])
}

proof fn lemma_node_value_same(
    n: Node,
    w: u32,
    regs: Seq<u64>,
    ins: Seq<u64>,
    f: spec_fn(u32) -> u64,
    h: spec_fn(u32) -> u64,
)
    requires
        forall|k: int|
            0 <= k < node_operands(n).len() ==> f(#[trigger] node_operands(n)[k]) == h(
                node_operands(n)[k],
            ),
    ensures
        node_value(n, w, regs, ins, f) == node_value(n, w, regs, ins, h),
{
    let o = node_operands(n);
    assert(o.len() > 0 ==> f(o[0]) == h(o[0]));
    assert(o.len() > 1 ==> f(o[1]) == h(o[1]));
    assert(o.len() > 2 ==> f(o[2]) == h(o[2]));
}

/// A node's value is its operation applied to its operands' values.
pub proof fn lemma_value(g: Graph, regs: Seq<u64>, ins: Seq<u64>, id: NodeId)
    requires
        g.acyclic(),
        id < g.len(),
    ensures
        g.value(regs, ins, id) == node_value(
            g.node(id),
            g.width(id),
            regs,
            ins,
            |x: u32| g.value(regs, ins, x),
        ),
{
    let f = |x: u32|
        if x < id {
            g.value(regs, ins, x)
        } else {
            0
        };
    let h = |x: u32| g.value(regs, ins, x);
    assert(operands_below(g.nodes[id as int], id as int));
    lemma_node_value_same(g.node(id), g.width(id), regs, ins, f, h);
}

/// Growing the graph leaves every value as it was.
pub proof fn lemma_value_kept(g: Graph, later: Graph, regs: Seq<u64>, ins: Seq<u64>, id: NodeId)
    requires
        g.prefix_of(later),
        g.acyclic(),
        id < g.len(),
    ensures
        later.value(regs, ins, id) == g.value(regs, ins, id),
    decreases id,
{
    let f = |x: u32|
        if x < id {
            g.value(regs, ins, x)
        } else {
            0
        };
    let h = |x: u32|
        if x < id {
            later.value(regs, ins, x)
        } else {
            0
        };
    let n = g.nodes[id as int];
    assert(later.nodes[id as int] == n);
    assert(later.widths[id as int] == g.widths[id as int]);
    assert(operands_below(n, id as int));
    assert forall|k: int| 0 <= k < node_operands(n).len() implies f(#[trigger] node_operands(n)[k])
        == h(node_operands(n)[k]) by {
        lemma_value_kept(g, later, regs, ins, node_operands(n)[k]);
    }
    lemma_node_value_same(n, g.widths[id as int], regs, ins, f, h);
}

/// Every value fits in the width of its node.
pub proof fn lemma_value_fits(
    g: Graph,
    rw: Seq<u32>,
    iw: Seq<u32>,
    regs: Seq<u64>,
    ins: Seq<u64>,
    id: NodeId,
)
    requires
        g.typed(rw, iw),
        regs_fit(rw, regs),
        id < g.len(),
    ensures
        fits(g.value(regs, ins, id), g.width(id)),
    decreases id,
{
    lemma_value(g, regs, ins, id);
    let n = g.node(id);
    let w = g.width(id);
    let h = |x: u32| g.value(regs, ins, x);
    assert(typed_as(g, rw, iw, g.nodes[id as int], g.widths[id as int]));
    assert(operands_below(g.nodes[id as int], id as int));
    let o = node_operands(n);
    if o.len() > 0 {
        assert(o[0] < id);
        lemma_value_fits(g, rw, iw, regs, ins, o[0]);
    }
    if o.len() > 1 {
        assert(o[1] < id);
        lemma_value_fits(g, rw, iw, regs, ins, o[1]);
    }
    if o.len() > 2 {
        assert(o[2] < id);
        lemma_value_fits(g, rw, iw, regs, ins, o[2]);
    }
    lemma_flag(true);
    lemma_flag(false);
    lemma_small(w);
    lemma_small(1);
    match n {
        Node::Const { value, .. } => {
            lemma_mask_idempotent(value, w);
        },
        Node::Reg(r) => {},
        Node::Input(i) => {
            lemma_mask_idempotent(
                if i < ins.len() {
                    ins[i as int]
                } else {
                    0
                },
                w,
            );
        },
        Node::Not(a) => {
            lemma_mask_idempotent(!h(a), w);
        },
        Node::And(a, b) => {
            lemma_fits_logic(h(a), h(b), w);
        },
        Node::Or(a, b) => {
            lemma_fits_logic(h(a), h(b), w);
        },
        Node::Xor(a, b) => {
            lemma_fits_logic(h(a), h(b), w);
        },
        Node::Add(a, b) => {
            lemma_mask_idempotent(((h(a) + h(b)) % 0x1_0000_0000_0000_0000) as u64, w);
        },
        Node::Mul(a, b) => {
            lemma_mask_idempotent(((h(a) * h(b)) % 0x1_0000_0000_0000_0000) as u64, w);
        },
        Node::Lt(a, b) => {},
        Node::Eq(a, b) => {},
        Node::Shl(a, b) => {
            lemma_mask_idempotent(h(a) << h(b), w);
        },
        Node::Shr(a, b) => {
            if h(b) < 64 {
                lemma_shr_fits(h(a), h(b), w);
            }
        },
        Node::Bit { src, bit } => {
            lemma_bit_select(h(src), bit);
        },
        Node::Resize { src, .. } => {
            lemma_mask_idempotent(h(src), w);
        },
        Node::Repeat { src, .. } => {
            lemma_mask_idempotent(u64::MAX, w);
        },
        Node::Mux { c, t, f } => {},
        Node::Any(a) => {},
    }
}

/// Selecting a bit gives that bit as a word.
pub proof fn lemma_bit_select(v: u64, b: u32)
    requires
        b < 64,
    ensures
        (v >> (b as u64)) & 1u64 == flag(bit(v, b as int)),
{
    let x = v >> (b as u64);
    assert(x & 1u64 == 0u64 || x & 1u64 == 1u64) by (bit_vector);
}

/// Interning keeps the graph well typed, and the id stands for the node.
pub proof fn lemma_intern(g: Graph, rw: Seq<u32>, iw: Seq<u32>, n: Node, w: u32)
    requires
        g.typed(rw, iw),
        g.len() < u32::MAX,
        typed_as(g, rw, iw, n, w),
    ensures
        ({
            let (g2, id) = g.intern(n, w);
            &&& g2.typed(rw, iw)
            &&& g.prefix_of(g2)
            &&& id < g2.len()
            &&& g2.node(id) == n
            &&& g2.width(id) == w
        }),
{
    let (g2, id) = g.intern(n, w);
    if g.nodes.contains(n) {
        let i = g.nodes.index_of(n);
        assert(g.nodes[i] == n);
        assert(typed_as(g, rw, iw, g.nodes[i], g.widths[i]));
    } else {
        assert forall|i: int| 0 <= i < g2.nodes.len() implies operands_below(
            #[trigger] g2.nodes[i],
            i,
        ) && typed_as(g2, rw, iw, g2.nodes[i], g2.widths[i]) by {
            if i < g.nodes.len() {
                assert(g2.nodes[i] == g.nodes[i]);
                assert(typed_as(g, rw, iw, g.nodes[i], g.widths[i]));
                lemma_typed_kept(g, g2, rw, iw, g.nodes[i], g.widths[i]);
            } else {
                lemma_typed_kept(g, g2, rw, iw, n, w);
            }
        }
    }
}

proof fn lemma_typed_kept(g: Graph, g2: Graph, rw: Seq<u32>, iw: Seq<u32>, n: Node, w: u32)
    requires
        g.prefix_of(g2),
        typed_as(g, rw, iw, n, w),
    ensures
        typed_as(g2, rw, iw, n, w),
{
    let o = node_operands(n);
    assert(o.len() > 0 ==> o[0] < g.len() && g2.widths[o[0] as int] == g.widths[o[0] as int]);
    assert(o.len() > 1 ==> o[1] < g.len() && g2.widths[o[1] as int] == g.widths[o[1] as int]);
    assert(o.len() > 2 ==> o[2] < g.len() && g2.widths[o[2] as int] == g.widths[o[2] as int]);
    assert(operands_below(n, g2.len() as int));
}

/// What a constructor owes: the graph stays well typed and keeps what it had, and
/// the id has the width `w`.
pub open spec fn built(
    g: Graph,
    rw: Seq<u32>,
    iw: Seq<u32>,
    r: (Graph, NodeId),
    w: u32,
) -> bool {
    &&& r.0.typed(rw, iw)
    &&& g.prefix_of(r.0)
    &&& r.1 < r.0.len()
    &&& r.0.width(r.1) == w
}

/// The value that a constructor's id stands for.
pub open spec fn result_value(r: (Graph, NodeId), regs: Seq<u64>, ins: Seq<u64>) -> u64 {
    r.0.value(regs, ins, r.1)
}

proof fn lemma_built_node(
    g: Graph,
    rw: Seq<u32>,
    iw: Seq<u32>,
    regs: Seq<u64>,
    ins: Seq<u64>,
    n: Node,
    w: u32,
)
    requires
        g.typed(rw, iw),
        g.len() < u32::MAX,
        typed_as(g, rw, iw, n, w),
    ensures
        built(g, rw, iw, g.intern(n, w), w),
        result_value(g.intern(n, w), regs, ins) == node_value(
            n,
            w,
            regs,
            ins,
            |x: u32| g.value(regs, ins, x),
        ),
{
    lemma_intern(g, rw, iw, n, w);
    let (g2, id) = g.intern(n, w);
    lemma_value(g2, regs, ins, id);
    let f = |x: u32| g2.value(regs, ins, x);
    let h = |x: u32| g.value(regs, ins, x);
    assert forall|k: int| 0 <= k < node_operands(n).len() implies f(#[trigger] node_operands(n)[k])
        == h(node_operands(n)[k]) by {
        lemma_value_kept(g, g2, regs, ins, node_operands(n)[k]);
    }
    lemma_node_value_same(n, w, regs, ins, f, h);
}

pub proof fn lemma_constant(
    g: Graph,
    rw: Seq<u32>,
    iw: Seq<u32>,
    regs: Seq<u64>,
    ins: Seq<u64>,
    value: u64,
    w: u32,
)
    requires
        g.typed(rw, iw),
        g.len() < u32::MAX,
        1 <= w <= 64,
    ensures
        built(g, rw, iw, g.constant(value, w), w),
        result_value(g.constant(value, w), regs, ins) == mask_of(value, w),
        g.constant(value, w).0.node(g.constant(value, w).1) == (Node::Const {
            value: mask_of(value, w),
            width: w,
        }),
{
    lemma_mask_idempotent(value, w);
    let n = Node::Const { value: mask_of(value, w), width: w };
    lemma_built_node(g, rw, iw, regs, ins, n, w);
    lemma_intern(g, rw, iw, n, w);
}

/// The value of a constant node.
proof fn lemma_const_value(
    g: Graph,
    rw: Seq<u32>,
    iw: Seq<u32>,
    regs: Seq<u64>,
    ins: Seq<u64>,
    a: NodeId,
)
    requires
        g.typed(rw, iw),
        a < g.len(),
    ensures
        1 <= g.width(a) <= 64,
        operands_below(g.node(a), a as int),
        g.node(a) matches Node::Const { value, width } ==> width == g.width(a) && g.value(
            regs,
            ins,
            a,
        ) == value,
{
    lemma_value(g, regs, ins, a);
    assert(typed_as(g, rw, iw, g.nodes[a as int], g.widths[a as int]));
    assert(operands_below(g.nodes[a as int], a as int));
}

/// Reading a register.
pub proof fn lemma_reg(
    g: Graph,
    rw: Seq<u32>,
    iw: Seq<u32>,
    regs: Seq<u64>,
    ins: Seq<u64>,
    r: u32,
)
    requires
        g.typed(rw, iw),
        g.len() < u32::MAX,
        r < rw.len(),
        1 <= rw[r as int] <= 64,
    ensures
        built(g, rw, iw, g.intern(Node::Reg(r), rw[r as int]), rw[r as int]),
        result_value(g.intern(Node::Reg(r), rw[r as int]), regs, ins) == regs[r as int],
{
    lemma_built_node(g, rw, iw, regs, ins, Node::Reg(r), rw[r as int]);
}

/// Reading an input port.
pub proof fn lemma_input(
    g: Graph,
    rw: Seq<u32>,
    iw: Seq<u32>,
    regs: Seq<u64>,
    ins: Seq<u64>,
    i: u32,
)
    requires
        g.typed(rw, iw),
        g.len() < u32::MAX,
        i < iw.len(),
        1 <= iw[i as int] <= 64,
    ensures
        built(g, rw, iw, g.intern(Node::Input(i), iw[i as int]), iw[i as int]),
        result_value(g.intern(Node::Input(i), iw[i as int]), regs, ins) == mask_of(
            if i < ins.len() {
                ins[i as int]
            } else {
                0
            },
            iw[i as int],
        ),
{
    lemma_built_node(g, rw, iw, regs, ins, Node::Input(i), iw[i as int]);
}

/// Negation; a double negation is the word itself.
pub proof fn lemma_not(
    g: Graph,
    rw: Seq<u32>,
    iw: Seq<u32>,
    regs: Seq<u64>,
    ins: Seq<u64>,
    a: NodeId,
)
    requires
        g.typed(rw, iw),
        regs_fit(rw, regs),
        g.len() < u32::MAX,
        a < g.len(),
    ensures
        built(g, rw, iw, g.not(a), g.width(a)),
        result_value(g.not(a), regs, ins) == mask_of(!g.value(regs, ins, a), g.width(a)),
{
    let w = g.width(a);
    let v = g.value(regs, ins, a);
    lemma_const_value(g, rw, iw, regs, ins, a);
    match g.node(a) {
        Node::Const { value, .. } => {
            lemma_constant(g, rw, iw, regs, ins, !value, w);
        },
        Node::Not(inner) => {
            assert(node_operands(g.node(a))[0] == inner);
            let x = g.value(regs, ins, inner);
            lemma_value(g, regs, ins, a);
            assert(typed_as(g, rw, iw, g.nodes[a as int], g.widths[a as int]));
            lemma_value_fits(g, rw, iw, regs, ins, inner);
            lemma_mask_idempotent(!v, w);
            assert forall|i: int| 0 <= i < w implies bit(mask_of(!v, w), i) == bit(x, i) by {
                lemma_mask_bit(!v, w, i);
                lemma_mask_bit(!x, w, i);
                lemma_bit_logic(v, v, i);
                lemma_bit_logic(x, x, i);
            }
            lemma_same_bits(mask_of(!v, w), x, w);
        },
        _ => {
            lemma_built_node(g, rw, iw, regs, ins, Node::Not(a), w);
        },
    }
}

proof fn lemma_and_or_self(v: u64)
    ensures
        v & v == v,
        v | v == v,
        v ^ v == 0,
        forall|u: u64| v & u == u & v,
        forall|u: u64| v | u == u | v,
        forall|u: u64| v ^ u == u ^ v,
{
    assert(v & v == v && v | v == v && v ^ v == 0u64) by (bit_vector);
    assert(forall|u: u64| v & u == u & v) by (bit_vector);
    assert(forall|u: u64| v | u == u | v) by (bit_vector);
    assert(forall|u: u64| v ^ u == u ^ v) by (bit_vector);
}

/// Bitwise logic on two words of one width.
pub proof fn lemma_logic(
    g: Graph,
    rw: Seq<u32>,
    iw: Seq<u32>,
    regs: Seq<u64>,
    ins: Seq<u64>,
    a: NodeId,
    b: NodeId,
)
    requires
        g.typed(rw, iw),
        regs_fit(rw, regs),
        g.len() < u32::MAX,
        a < g.len(),
        b < g.len(),
        g.width(a) == g.width(b),
    ensures
        built(g, rw, iw, g.and(a, b), g.width(a)),
        built(g, rw, iw, g.or(a, b), g.width(a)),
        built(g, rw, iw, g.xor(a, b), g.width(a)),
        result_value(g.and(a, b), regs, ins) == g.value(regs, ins, a) & g.value(regs, ins, b),
        result_value(g.or(a, b), regs, ins) == g.value(regs, ins, a) | g.value(regs, ins, b),
        result_value(g.xor(a, b), regs, ins) == g.value(regs, ins, a) ^ g.value(regs, ins, b),
{
    let w = g.width(a);
    let x = g.value(regs, ins, a);
    let y = g.value(regs, ins, b);
    lemma_const_value(g, rw, iw, regs, ins, a);
    lemma_const_value(g, rw, iw, regs, ins, b);
    lemma_value_fits(g, rw, iw, regs, ins, a);
    lemma_value_fits(g, rw, iw, regs, ins, b);
    lemma_fits_logic(x, y, w);
    lemma_and_or_self(x);
    lemma_and_or_self(y);
    lemma_constant(g, rw, iw, regs, ins, x & y, w);
    lemma_constant(g, rw, iw, regs, ins, x | y, w);
    lemma_constant(g, rw, iw, regs, ins, x ^ y, w);
    lemma_constant(g, rw, iw, regs, ins, 0, w);
    lemma_zero_bits(x, w);
    lemma_built_node(g, rw, iw, regs, ins, Node::And(low(a, b), high(a, b)), w);
    lemma_built_node(g, rw, iw, regs, ins, Node::Or(low(a, b), high(a, b)), w);
    lemma_built_node(g, rw, iw, regs, ins, Node::Xor(low(a, b), high(a, b)), w);
}

/// Addition and multiplication wrap at the width.
pub proof fn lemma_arith(
    g: Graph,
    rw: Seq<u32>,
    iw: Seq<u32>,
    regs: Seq<u64>,
    ins: Seq<u64>,
    a: NodeId,
    b: NodeId,
)
    requires
        g.typed(rw, iw),
        regs_fit(rw, regs),
        g.len() < u32::MAX,
        a < g.len(),
        b < g.len(),
        g.width(a) == g.width(b),
    ensures
        built(g, rw, iw, g.add(a, b), g.width(a)),
        built(g, rw, iw, g.mul(a, b), g.width(a)),
        result_value(g.add(a, b), regs, ins) as int == (g.value(regs, ins, a) + g.value(regs, ins, b))
            % (pow2(g.width(a) as nat) as int),
        result_value(g.mul(a, b), regs, ins) as int == (g.value(regs, ins, a) * g.value(regs, ins, b))
            % (pow2(g.width(a) as nat) as int),
{
    let w = g.width(a);
    let x = g.value(regs, ins, a);
    let y = g.value(regs, ins, b);
    lemma_const_value(g, rw, iw, regs, ins, a);
    lemma_const_value(g, rw, iw, regs, ins, b);
    assert(x * y >= 0) by (nonlinear_arith)
        requires
            x >= 0,
            y >= 0,
    ;
    assert(x * y == y * x) by (nonlinear_arith);
    let s = ((x + y) % 0x1_0000_0000_0000_0000) as u64;
    let p = ((x * y) % 0x1_0000_0000_0000_0000) as u64;
    lemma_mask_of_wrapped((x + y) as nat, s, w);
    lemma_mask_of_wrapped((x * y) as nat, p, w);
    lemma_constant(g, rw, iw, regs, ins, s, w);
    lemma_constant(g, rw, iw, regs, ins, p, w);
    lemma_built_node(g, rw, iw, regs, ins, Node::Add(low(a, b), high(a, b)), w);
    lemma_built_node(g, rw, iw, regs, ins, Node::Mul(low(a, b), high(a, b)), w);
}

/// Adding the complement and one subtracts.
proof fn lemma_complement(y: u64, w: u32)
    requires
        w <= 64,
        fits(y, w),
    ensures
        mask_of(!y, w) as int == pow2(w as nat) - 1 - y,
{
    let m = mask_of(!y, w);
    assert(!y == 0xffff_ffff_ffff_ffffu64 - y) by (bit_vector);
    lemma_mask_is_mod(!y, w);
    lemma_fits_bound(y, w);
    lemma_pow2_pos(w as nat);
    let p = pow2(w as nat) as int;
    vstd::arithmetic::power2::lemma2_to64_rest();
    vstd::arithmetic::power2::lemma_pow2_adds(w as nat, (64 - w) as nat);
    let q = pow2((64 - w) as nat) as int;
    lemma_pow2_pos((64 - w) as nat);
    assert(p * q == 0x1_0000_0000_0000_0000);
    let n = (!y) as int;
    assert(n == p * q - 1 - y);
    assert(n == p * (q - 1) + (p - 1 - y)) by (nonlinear_arith)
        requires
            n == p * q - 1 - y,
    ;
    vstd::arithmetic::div_mod::lemma_fundamental_div_mod_converse(n, p, q - 1, p - 1 - y);
}

/// Subtraction wraps at the width.
pub proof fn lemma_sub(
    g: Graph,
    rw: Seq<u32>,
    iw: Seq<u32>,
    regs: Seq<u64>,
    ins: Seq<u64>,
    a: NodeId,
    b: NodeId,
)
    requires
        g.typed(rw, iw),
        regs_fit(rw, regs),
        g.len() + 4 <= u32::MAX,
        a < g.len(),
        b < g.len(),
        g.width(a) == g.width(b),
    ensures
        built(g, rw, iw, g.sub(a, b), g.width(a)),
        result_value(g.sub(a, b), regs, ins) as int == (g.value(regs, ins, a) - g.value(regs, ins, b))
            % (pow2(g.width(a) as nat) as int),
{
    let w = g.width(a);
    let x = g.value(regs, ins, a);
    let y = g.value(regs, ins, b);
    lemma_const_value(g, rw, iw, regs, ins, a);
    lemma_const_value(g, rw, iw, regs, ins, b);
    lemma_value_fits(g, rw, iw, regs, ins, a);
    lemma_value_fits(g, rw, iw, regs, ins, b);
    lemma_pow2_pos(w as nat);
    let p = pow2(w as nat) as int;
    match (g.node(a), g.node(b)) {
        (Node::Const { .. }, Node::Const { .. }) => {
            let d = ((x - y) % 0x1_0000_0000_0000_0000) as u64;
            lemma_constant(g, rw, iw, regs, ins, d, w);
            vstd::arithmetic::power2::lemma2_to64_rest();
            vstd::arithmetic::power2::lemma_pow2_adds(w as nat, (64 - w) as nat);
            lemma_pow2_pos((64 - w) as nat);
            let q = pow2((64 - w) as nat) as int;
            assert(p * q == 0x1_0000_0000_0000_0000);
            vstd::arithmetic::div_mod::lemma_mod_mod(x - y, p, q);
            lemma_mask_is_mod(d, w);
        },
        _ => {
            lemma_not(g, rw, iw, regs, ins, b);
            let (g1, nb) = g.not(b);
            lemma_constant(g1, rw, iw, regs, ins, 1, w);
            let (g2, one) = g1.constant(1, w);
            lemma_value_kept(g, g1, regs, ins, a);
            lemma_value_kept(g1, g2, regs, ins, a);
            lemma_value_kept(g1, g2, regs, ins, nb);
            assert(g1.len() <= g.len() + 1);
            assert(g2.len() <= g1.len() + 1);
            assert(g1.widths[a as int] == w && g2.widths[a as int] == w);
            assert(g2.widths[nb as int] == w);
            lemma_arith(g2, rw, iw, regs, ins, a, nb);
            let (g3, t) = g2.add(a, nb);
            lemma_value_kept(g2, g3, regs, ins, one);
            assert(g3.widths[one as int] == w);
            lemma_arith(g3, rw, iw, regs, ins, t, one);
            lemma_complement(y, w);
            lemma_small(w);
            let tv = g3.value(regs, ins, t) as int;
            assert(tv == (x + (p - 1 - y)) % p);
            vstd::arithmetic::div_mod::lemma_add_mod_noop(x + (p - 1 - y), 1, p);
            lemma_fits_bound(1, w);
            vstd::arithmetic::div_mod::lemma_small_mod(1, p as nat);
            assert((tv + 1) % p == (x + (p - 1 - y) + 1) % p);
            vstd::arithmetic::div_mod::lemma_mod_add_multiples_vanish(x - y, p);
            let r = g3.add(t, one);
            assert forall|i: int| 0 <= i < g.len() implies #[trigger] r.0.nodes[i] == g.nodes[i]
                && r.0.widths[i] == g.widths[i] by {
                assert(g1.nodes[i] == g.nodes[i] && g2.nodes[i] == g1.nodes[i] && g3.nodes[i]
                    == g2.nodes[i]);
                assert(g1.widths[i] == g.widths[i] && g2.widths[i] == g1.widths[i] && g3.widths[i]
                    == g2.widths[i]);
            }
        },
    }
}

/// Unsigned comparison of two words of one width.
pub proof fn lemma_compare(
    g: Graph,
    rw: Seq<u32>,
    iw: Seq<u32>,
    regs: Seq<u64>,
    ins: Seq<u64>,
    a: NodeId,
    b: NodeId,
)
    requires
        g.typed(rw, iw),
        regs_fit(rw, regs),
        g.len() < u32::MAX,
        a < g.len(),
        b < g.len(),
        g.width(a) == g.width(b),
    ensures
        built(g, rw, iw, g.lt(a, b), 1),
        built(g, rw, iw, g.eq(a, b), 1),
        result_value(g.lt(a, b), regs, ins) == flag(g.value(regs, ins, a) < g.value(regs, ins, b)),
        result_value(g.eq(a, b), regs, ins) == flag(g.value(regs, ins, a) == g.value(regs, ins, b)),
{
    let x = g.value(regs, ins, a);
    let y = g.value(regs, ins, b);
    lemma_const_value(g, rw, iw, regs, ins, a);
    lemma_const_value(g, rw, iw, regs, ins, b);
    lemma_small(1);
    lemma_constant(g, rw, iw, regs, ins, 0, 1);
    lemma_constant(g, rw, iw, regs, ins, 1, 1);
    lemma_built_node(g, rw, iw, regs, ins, Node::Lt(a, b), 1);
    lemma_built_node(g, rw, iw, regs, ins, Node::Eq(low(a, b), high(a, b)), 1);
}

/// The complement of a one-bit word.
pub proof fn lemma_not_flag(b: bool)
    ensures
        mask_of(!flag(b), 1) == flag(!b),
{
    assert(!0u64 & (((1u64 << 1u64) - 1) as u64) == 1u64 && !1u64 & (((1u64 << 1u64) - 1) as u64)
        == 0u64) by (bit_vector);
}

/// The comparisons that are complements of others.
pub proof fn lemma_compare_not(
    g: Graph,
    rw: Seq<u32>,
    iw: Seq<u32>,
    regs: Seq<u64>,
    ins: Seq<u64>,
    a: NodeId,
    b: NodeId,
)
    requires
        g.typed(rw, iw),
        regs_fit(rw, regs),
        g.len() + 2 <= u32::MAX,
        a < g.len(),
        b < g.len(),
        g.width(a) == g.width(b),
    ensures
        built(g, rw, iw, g.ne(a, b), 1),
        built(g, rw, iw, g.le(a, b), 1),
        built(g, rw, iw, g.ge(a, b), 1),
        result_value(g.ne(a, b), regs, ins) == flag(g.value(regs, ins, a) != g.value(regs, ins, b)),
        result_value(g.le(a, b), regs, ins) == flag(g.value(regs, ins, a) <= g.value(regs, ins, b)),
        result_value(g.ge(a, b), regs, ins) == flag(g.value(regs, ins, a) >= g.value(regs, ins, b)),
{
    lemma_compare(g, rw, iw, regs, ins, a, b);
    lemma_compare(g, rw, iw, regs, ins, b, a);
    lemma_not_flag(true);
    lemma_not_flag(false);
    lemma_not_after(g, g.eq(a, b), rw, iw, regs, ins);
    lemma_not_after(g, g.lt(b, a), rw, iw, regs, ins);
    lemma_not_after(g, g.lt(a, b), rw, iw, regs, ins);
}

proof fn lemma_not_after(
    g: Graph,
    r: (Graph, NodeId),
    rw: Seq<u32>,
    iw: Seq<u32>,
    regs: Seq<u64>,
    ins: Seq<u64>,
)
    requires
        built(g, rw, iw, r, 1),
        regs_fit(rw, regs),
        r.0.len() <= g.len() + 1,
        g.len() + 2 <= u32::MAX,
    ensures
        built(g, rw, iw, r.0.not(r.1), 1),
        result_value(r.0.not(r.1), regs, ins) == mask_of(!result_value(r, regs, ins), 1),
{
    lemma_not(r.0, rw, iw, regs, ins, r.1);
    let q = r.0.not(r.1);
    assert forall|i: int| 0 <= i < g.len() implies #[trigger] q.0.nodes[i] == g.nodes[i]
        && q.0.widths[i] == g.widths[i] by {
        assert(r.0.nodes[i] == g.nodes[i] && r.0.widths[i] == g.widths[i]);
    }
}

/// Shifts; an amount of 64 or more leaves nothing.
pub proof fn lemma_shift(
    g: Graph,
    rw: Seq<u32>,
    iw: Seq<u32>,
    regs: Seq<u64>,
    ins: Seq<u64>,
    a: NodeId,
    b: NodeId,
)
    requires
        g.typed(rw, iw),
        regs_fit(rw, regs),
        g.len() < u32::MAX,
        a < g.len(),
        b < g.len(),
    ensures
        built(g, rw, iw, g.shl(a, b), g.width(a)),
        built(g, rw, iw, g.shr(a, b), g.width(a)),
        result_value(g.shl(a, b), regs, ins) == if g.value(regs, ins, b) >= 64 {
            0
        } else {
            mask_of(g.value(regs, ins, a) << g.value(regs, ins, b), g.width(a))
        },
        result_value(g.shr(a, b), regs, ins) == if g.value(regs, ins, b) >= 64 {
            0
        } else {
            g.value(regs, ins, a) >> g.value(regs, ins, b)
        },
{
    let w = g.width(a);
    let x = g.value(regs, ins, a);
    let y = g.value(regs, ins, b);
    lemma_const_value(g, rw, iw, regs, ins, a);
    lemma_const_value(g, rw, iw, regs, ins, b);
    lemma_value_fits(g, rw, iw, regs, ins, a);
    lemma_constant(g, rw, iw, regs, ins, 0, w);
    lemma_zero_bits(x, w);
    if y < 64 {
        lemma_constant(g, rw, iw, regs, ins, x << y, w);
        lemma_constant(g, rw, iw, regs, ins, x >> y, w);
        lemma_shr_fits(x, y, w);
    }
    lemma_built_node(g, rw, iw, regs, ins, Node::Shl(a, b), w);
    lemma_built_node(g, rw, iw, regs, ins, Node::Shr(a, b), w);
}

/// Selecting one bit; a bit outside the word is zero.
pub proof fn lemma_bit(
    g: Graph,
    rw: Seq<u32>,
    iw: Seq<u32>,
    regs: Seq<u64>,
    ins: Seq<u64>,
    a: NodeId,
    b: u32,
)
    requires
        g.typed(rw, iw),
        regs_fit(rw, regs),
        g.len() < u32::MAX,
        a < g.len(),
    ensures
        built(g, rw, iw, g.bit(a, b), 1),
        result_value(g.bit(a, b), regs, ins) == flag(bit(g.value(regs, ins, a), b as int)),
{
    let x = g.value(regs, ins, a);
    lemma_const_value(g, rw, iw, regs, ins, a);
    lemma_value_fits(g, rw, iw, regs, ins, a);
    lemma_small(1);
    if b >= g.width(a) {
        crate::bits::lemma_fits_high_bit(x, g.width(a), b as int);
        lemma_constant(g, rw, iw, regs, ins, 0, 1);
    } else {
        lemma_bit_select(x, b);
        lemma_constant(g, rw, iw, regs, ins, flag(bit(x, b as int)), 1);
        lemma_built_node(g, rw, iw, regs, ins, Node::Bit { src: a, bit: b }, 1);
    }
}

/// Zero-extension and truncation.
pub proof fn lemma_resize(
    g: Graph,
    rw: Seq<u32>,
    iw: Seq<u32>,
    regs: Seq<u64>,
    ins: Seq<u64>,
    a: NodeId,
    w: u32,
)
    requires
        g.typed(rw, iw),
        regs_fit(rw, regs),
        g.len() < u32::MAX,
        a < g.len(),
        1 <= w <= 64,
    ensures
        built(g, rw, iw, g.resize(a, w), w),
        result_value(g.resize(a, w), regs, ins) == mask_of(g.value(regs, ins, a), w),
{
    lemma_const_value(g, rw, iw, regs, ins, a);
    lemma_value_fits(g, rw, iw, regs, ins, a);
    lemma_constant(g, rw, iw, regs, ins, g.value(regs, ins, a), w);
    lemma_built_node(g, rw, iw, regs, ins, Node::Resize { src: a, width: w }, w);
}

/// Broadcasting one bit.
pub proof fn lemma_repeat(
    g: Graph,
    rw: Seq<u32>,
    iw: Seq<u32>,
    regs: Seq<u64>,
    ins: Seq<u64>,
    a: NodeId,
    w: u32,
)
    requires
        g.typed(rw, iw),
        regs_fit(rw, regs),
        g.len() < u32::MAX,
        a < g.len(),
        g.width(a) == 1,
        1 <= w <= 64,
    ensures
        built(g, rw, iw, g.repeat(a, w), w),
        result_value(g.repeat(a, w), regs, ins) == if bit(g.value(regs, ins, a), 0) {
            mask_of(u64::MAX, w)
        } else {
            0
        },
{
    let x = g.value(regs, ins, a);
    lemma_const_value(g, rw, iw, regs, ins, a);
    crate::bits::lemma_low_bit(x);
    lemma_constant(g, rw, iw, regs, ins, u64::MAX, w);
    lemma_constant(g, rw, iw, regs, ins, 0, w);
    lemma_small(w);
    lemma_built_node(g, rw, iw, regs, ins, Node::Repeat { src: a, width: w }, w);
}

/// Selection between two words of one width.
pub proof fn lemma_mux(
    g: Graph,
    rw: Seq<u32>,
    iw: Seq<u32>,
    regs: Seq<u64>,
    ins: Seq<u64>,
    c: NodeId,
    t: NodeId,
    f: NodeId,
)
    requires
        g.typed(rw, iw),
        regs_fit(rw, regs),
        g.len() < u32::MAX,
        c < g.len(),
        t < g.len(),
        f < g.len(),
        g.width(c) == 1,
        g.width(t) == g.width(f),
    ensures
        built(g, rw, iw, g.mux(c, t, f), g.width(t)),
        result_value(g.mux(c, t, f), regs, ins) == if bit(g.value(regs, ins, c), 0) {
            g.value(regs, ins, t)
        } else {
            g.value(regs, ins, f)
        },
{
    let x = g.value(regs, ins, c);
    lemma_const_value(g, rw, iw, regs, ins, c);
    lemma_const_value(g, rw, iw, regs, ins, t);
    crate::bits::lemma_low_bit(x);
    lemma_built_node(g, rw, iw, regs, ins, Node::Mux { c, t, f }, g.width(t));
}

/// The nonzero test.
pub proof fn lemma_any(
    g: Graph,
    rw: Seq<u32>,
    iw: Seq<u32>,
    regs: Seq<u64>,
    ins: Seq<u64>,
    a: NodeId,
)
    requires
        g.typed(rw, iw),
        regs_fit(rw, regs),
        g.len() < u32::MAX,
        a < g.len(),
    ensures
        built(g, rw, iw, g.any(a), 1),
        result_value(g.any(a), regs, ins) == flag(g.value(regs, ins, a) != 0),
{
    let x = g.value(regs, ins, a);
    lemma_const_value(g, rw, iw, regs, ins, a);
    lemma_value_fits(g, rw, iw, regs, ins, a);
    lemma_small(1);
    if g.width(a) == 1 {
        lemma_one_bit(x);
    }
    lemma_constant(g, rw, iw, regs, ins, flag(x != 0), 1);
    lemma_built_node(g, rw, iw, regs, ins, Node::Any(a), 1);
}

/// Building the same expression twice gives the same id, and commutative
/// operations give it whichever operand comes first.
pub proof fn lemma_shared(g: Graph, n: Node, w: u32, a: NodeId, b: NodeId)
    requires
        g.acyclic(),
        g.len() < u32::MAX,
        a < g.len(),
        b < g.len(),
        g.width(a) == g.width(b),
    ensures
        ({
            let (g1, id) = g.intern(n, w);
            g1.intern(n, w) == (g1, id)
        }),
        g.and(a, b) == g.and(b, a),
        g.or(a, b) == g.or(b, a),
        g.xor(a, b) == g.xor(b, a),
        g.add(a, b) == g.add(b, a),
        g.mul(a, b) == g.mul(b, a),
        g.eq(a, b) == g.eq(b, a),
{
    let (g1, id) = g.intern(n, w);
    if !g.nodes.contains(n) {
        assert(g1.nodes[g.nodes.len() as int] == n);
        assert(g1.nodes.contains(n));
        let i = g1.nodes.index_of(n);
        assert(g1.nodes[i] == n);
        if i < g.nodes.len() {
            assert(g.nodes[i] == n);
        }
    }
    if let (Node::Const { value: x, .. }, Node::Const { value: y, .. }) = (g.node(a), g.node(b)) {
        lemma_and_or_self(x);
        assert(x * y == y * x) by (nonlinear_arith);
    }
}

/// Negation within a width undoes itself.
proof fn lemma_mask_not(v: u64, w: u32)
    ensures
        mask_of(!mask_of(!v, w), w) == mask_of(v, w),
{
    if w >= 64 {
        assert(!!v == v) by (bit_vector);
    } else {
        let m = ((1u64 << (w as u64)) - 1) as u64;
        assert(!(!v & m) & m == v & m) by (bit_vector);
    }
}

/// A node that is there has one id.
proof fn lemma_found(g: Graph, n: Node, w: u32, a: NodeId)
    requires
        g.acyclic(),
        a < g.len(),
        g.node(a) == n,
    ensures
        g.intern(n, w) == (g, a),
{
    assert(g.nodes[a as int] == n);
    assert(g.nodes.contains(n));
    let k = g.nodes.index_of(n);
    assert(g.nodes[k] == g.nodes[a as int]);
}

/// Where a node is built that was not there, it has its width.
proof fn lemma_intern_shape(g: Graph, n: Node, w: u32)
    requires
        g.acyclic(),
        g.folded(),
        g.len() < u32::MAX,
    ensures
        ({
            let (h, id) = g.intern(n, w);
            &&& id < h.len()
            &&& h.node(id) == n
            &&& g.prefix_of(h)
            &&& h.intern(n, w) == (h, id)
            &&& g.nodes.contains(n) ==> h == g && folded_as(g, n, h.width(id))
            &&& !g.nodes.contains(n) ==> h.width(id) == w
        }),
{
    let (h, id) = g.intern(n, w);
    if g.nodes.contains(n) {
        let k = g.nodes.index_of(n);
        assert(g.nodes[k] == n);
        assert(folded_as(g, g.nodes[k], g.widths[k]));
        lemma_found(g, n, w, id);
    } else {
        assert(h.nodes[id as int] == n);
        assert(h.nodes.contains(n));
        let k = h.nodes.index_of(n);
        if k < g.len() {
            assert(g.nodes[k] == n);
        }
    }
}

/// A constant has the width that was asked for.
proof fn lemma_constant_shape(g: Graph, v: u64, w: u32)
    requires
        g.acyclic(),
        g.folded(),
        g.len() < u32::MAX,
    ensures
        ({
            let (h, id) = g.constant(v, w);
            &&& id < h.len()
            &&& h.node(id) == (Node::Const { value: mask_of(v, w), width: w })
            &&& h.width(id) == w
            &&& g.prefix_of(h)
            &&& h.constant(v, w) == (h, id)
        }),
{
    lemma_intern_shape(g, Node::Const { value: mask_of(v, w), width: w }, w);
}

/// Negating twice gives the same id, and keeps the width. A constant is negated on the
/// spot.
pub proof fn lemma_double_negation(g: Graph, a: NodeId)
    requires
        g.acyclic(),
        g.folded(),
        g.len() < u32::MAX,
        a < g.len(),
    ensures
        ({
            let (g1, n) = g.not(a);
            &&& g1.not(n) == (g1, a)
            &&& n < g1.len()
            &&& g1.width(n) == g.width(a)
            &&& g.node(a) matches Node::Const { value, width } ==> g1.node(n) == (Node::Const {
                value: mask_of(!value, width),
                width,
            })
        }),
{
    let w = g.width(a);
    let (g1, n) = g.not(a);
    assert(folded_as(g, g.nodes[a as int], g.widths[a as int]));
    match g.node(a) {
        Node::Const { value, width } => {
            lemma_constant_shape(g, !value, w);
            lemma_mask_not(value, w);
            assert(g1.nodes[a as int] == g.nodes[a as int]);
            lemma_intern_kept(g, Node::Const { value: mask_of(!value, w), width: w }, w);
            lemma_found(g1, Node::Const { value, width }, w, a);
        },
        Node::Not(inner) => {
            assert(node_operands(g.nodes[a as int])[0] == inner);
            lemma_found(g, Node::Not(inner), w, a);
        },
        _ => {
            lemma_intern_shape(g, Node::Not(a), w);
        },
    }
}

/// Building a node keeps the numbering.
proof fn lemma_intern_kept(g: Graph, n: Node, w: u32)
    requires
        g.acyclic(),
        g.len() < u32::MAX,
        operands_below(n, g.len() as int),
    ensures
        g.intern(n, w).0.acyclic(),
{
    let h = g.intern(n, w).0;
    if !g.nodes.contains(n) {
        assert forall|i: int, j: int| 0 <= i < h.nodes.len() && 0 <= j < h.nodes.len() && i != j implies h.nodes[i]
            != h.nodes[j] by {
            if i < g.len() {
                assert(g.nodes.contains(g.nodes[i]));
            }
            if j < g.len() {
                assert(g.nodes.contains(g.nodes[j]));
            }
        }
        assert forall|i: int| 0 <= i < h.nodes.len() implies operands_below(#[trigger] h.nodes[i], i) by {
            if i < g.len() {
                assert(h.nodes[i] == g.nodes[i]);
            }
        }
    }
}

/// A sum of two words of one width has that width, does not depend on the order of its
/// operands, and is built once. Constants are added on the spot, modulo the width.
pub proof fn lemma_sum(g: Graph, a: NodeId, b: NodeId)
    requires
        g.acyclic(),
        g.folded(),
        g.len() < u32::MAX,
        a < g.len(),
        b < g.len(),
        g.width(a) == g.width(b),
    ensures
        ({
            let (g1, s) = g.add(a, b);
            &&& g.add(b, a) == (g1, s)
            &&& g1.add(b, a) == (g1, s)
            &&& s < g1.len()
            &&& g1.width(s) == g.width(a)
            &&& (g.node(a), g.node(b)) matches (
                Node::Const { value: x, .. },
                Node::Const { value: y, .. },
            ) ==> g1.node(s) == (Node::Const {
                value: mask_of(((x + y) % 0x1_0000_0000_0000_0000) as u64, g.width(a)),
                width: g.width(a),
            }) && (g.width(a) <= 64 ==> mask_of(
                ((x + y) % 0x1_0000_0000_0000_0000) as u64,
                g.width(a),
            ) as int == (x + y) % (pow2(g.width(a) as nat) as int))
        }),
{
    let w = g.width(a);
    let (g1, s) = g.add(a, b);
    assert(g1.nodes.len() >= g.nodes.len());
    match (g.node(a), g.node(b)) {
        (Node::Const { value: x, .. }, Node::Const { value: y, .. }) => {
            let v = ((x + y) % 0x1_0000_0000_0000_0000) as u64;
            lemma_constant_shape(g, v, w);
            if w <= 64 {
                crate::bits::lemma_mask_is_mod(v, w);
                vstd::arithmetic::power2::lemma2_to64_rest();
                vstd::arithmetic::power2::lemma_pow2_adds(w as nat, (64 - w) as nat);
                lemma_pow2_pos(w as nat);
                lemma_pow2_pos((64 - w) as nat);
                vstd::arithmetic::div_mod::lemma_mod_mod(
                    x + y,
                    pow2(w as nat) as int,
                    pow2((64 - w) as nat) as int,
                );
            }
        },
        _ => {
            lemma_intern_shape(g, Node::Add(low(a, b), high(a, b)), w);
        },
    }
    assert(g1.nodes[a as int] == g.nodes[a as int] && g1.nodes[b as int] == g.nodes[b as int]);
    assert(g1.widths[a as int] == w && g1.widths[b as int] == w);
}

/// The other operations whose operands commute do not depend on their order either.
pub proof fn lemma_commutes(g: Graph, a: NodeId, b: NodeId)
    requires
        g.width(a) == g.width(b),
    ensures
        g.and(a, b) == g.and(b, a),
        g.or(a, b) == g.or(b, a),
        g.xor(a, b) == g.xor(b, a),
        g.mul(a, b) == g.mul(b, a),
        g.eq(a, b) == g.eq(b, a),
{
    if let (Node::Const { value: x, .. }, Node::Const { value: y, .. }) = (g.node(a), g.node(b)) {
        assert(x & y == y & x && x | y == y | x && x ^ y == y ^ x) by (bit_vector);
        assert(x * y == y * x) by (nonlinear_arith);
    }
}

} // verus!
