//! Word-level intermediate representation: a hash-consed combinational DAG plus
//! a finite state machine over it.
//!
//! Each basic block is exactly one clock cycle. Within a block, expressions are
//! pure combinational functions of the current register values; every register
//! write commits simultaneously at the end of the cycle.
//!
//! Nodes are hash-consed, which gives structural common-subexpression
//! elimination for free: building the same expression twice returns the same id.
use crate::bits::{fits, flag, mask_of};
use crate::graph::{is_topo_order, topo_order, walked, Dag};
use std::collections::HashMap;
use vstd::prelude::*;

verus! {

broadcast use vstd::std_specs::hash::group_hash_axioms;

pub type NodeId = u32;

pub type RegId = u32;

pub type BlockId = u32;

#[derive(Debug, Clone, Copy, PartialEq, Eq, Hash, Structural)]
pub enum Node {
    Const { value: u64, width: u32 },
    /// Current value of a register (the value at the start of the cycle).
    Reg(RegId),
    /// Value of an input port.
    Input(u32),
    Not(NodeId),
    And(NodeId, NodeId),
    Or(NodeId, NodeId),
    Xor(NodeId, NodeId),
    Add(NodeId, NodeId),
    /// Unsigned `a < b`, result width 1.
    Lt(NodeId, NodeId),
    /// `a == b`, result width 1.
    Eq(NodeId, NodeId),
    Mul(NodeId, NodeId),
    Shl(NodeId, NodeId),
    Shr(NodeId, NodeId),
    /// Bit select: `(src >> bit) & 1`, result width 1.
    Bit { src: NodeId, bit: u32 },
    /// Zero-extend or truncate to `width`.
    Resize { src: NodeId, width: u32 },
    /// `c ? t : f`, where `c` has width 1.
    Mux { c: NodeId, t: NodeId, f: NodeId },
    /// OR-reduction to width 1: "is this value nonzero".
    Any(NodeId),
    /// A width-1 value copied into every bit of a wider word.
    Repeat { src: NodeId, width: u32 },
}

#[derive(Debug, Clone)]
pub struct RegDecl {
    pub name: String,
    pub width: u32,
    /// Registers start at zero on world load; this documents that assumption.
    pub reset: u64,
}

#[derive(Debug, Clone)]
pub struct PortDecl {
    pub name: String,
    pub width: u32,
}

#[derive(Debug, Clone, Copy, PartialEq, Eq, Structural)]
pub enum Term {
    Jump(BlockId),
    Branch { cond: NodeId, then_b: BlockId, else_b: BlockId },
    /// Terminal state: the machine parks here and asserts `done`.
    Halt,
}

#[derive(Debug, Clone)]
pub struct BasicBlock {
    pub label: String,
    /// Register writes committed at the end of this cycle. Order is irrelevant:
    /// every right-hand side reads pre-cycle state.
    pub assigns: Vec<(RegId, NodeId)>,
    pub term: Term,
}

/// The nodes built so far, with a hash table to find the one that is wanted.
#[derive(Debug)]
pub struct NodeTable {
    nodes: Vec<Node>,
    widths: Vec<u32>,
    hash: HashMap<u128, NodeId>,
}

#[derive(Debug)]
pub struct Design {
    pub table: NodeTable,
    pub regs: Vec<RegDecl>,
    pub inputs: Vec<PortDecl>,
    /// Outputs are registers exposed to the world; the value is the reg id.
    pub outputs: Vec<(String, RegId)>,
    pub blocks: Vec<BasicBlock>,
    pub entry: BlockId,
}

// --- the expression graph ------------------------------------------------

/// The expression graph of a design: its nodes in the order they were built, and
/// the width of each.
#[verifier::ext_equal]
pub struct Graph {
    pub nodes: Seq<Node>,
    pub widths: Seq<u32>,
}

/// The operands of a node, in order.
pub open spec fn node_operands(n: Node) -> Seq<u32> {
    match n {
        Node::Const { .. } => seq![],
        Node::Reg(_) => seq![],
        Node::Input(_) => seq![],
        Node::Not(a) => seq![a],
        Node::Any(a) => seq![a],
        Node::Bit { src, .. } => seq![src],
        Node::Resize { src, .. } => seq![src],
        Node::Repeat { src, .. } => seq![src],
        Node::And(a, b) => seq![a, b],
        Node::Or(a, b) => seq![a, b],
        Node::Xor(a, b) => seq![a, b],
        Node::Add(a, b) => seq![a, b],
        Node::Lt(a, b) => seq![a, b],
        Node::Eq(a, b) => seq![a, b],
        Node::Mul(a, b) => seq![a, b],
        Node::Shl(a, b) => seq![a, b],
        Node::Shr(a, b) => seq![a, b],
        Node::Mux { c, t, f } => seq![c, t, f],
    }
}

/// Does every operand of `n` come before `i`?
pub open spec fn operands_below(n: Node, i: int) -> bool {
    forall|k: int| 0 <= k < node_operands(n).len() ==> #[trigger] node_operands(n)[k] < i
}

/// What a node computes, given what its operands compute.
pub open spec fn node_value(
    n: Node,
    w: u32,
    regs: Seq<u64>,
    ins: Seq<u64>,
    g: spec_fn(u32) -> u64,
) -> u64 {
    match n {
        Node::Const { value, .. } => mask_of(value, w),
        Node::Reg(r) => regs[r as int],
        Node::Input(i) => mask_of(
            if i < ins.len() {
                ins[i as int]
            } else {
                0
            },
            w,
        ),
        Node::Not(a) => mask_of(!g(a), w),
        Node::And(a, b) => g(a) & g(b),
        Node::Or(a, b) => g(a) | g(b),
        Node::Xor(a, b) => g(a) ^ g(b),
        Node::Add(a, b) => mask_of(((g(a) + g(b)) % 0x1_0000_0000_0000_0000) as u64, w),
        Node::Lt(a, b) => flag(g(a) < g(b)),
        Node::Eq(a, b) => flag(g(a) == g(b)),
        Node::Mul(a, b) => mask_of(((g(a) * g(b)) % 0x1_0000_0000_0000_0000) as u64, w),
        Node::Shl(a, b) => if g(b) >= 64 {
            0
        } else {
            mask_of(g(a) << g(b), w)
        },
        Node::Shr(a, b) => if g(b) >= 64 {
            0
        } else {
            g(a) >> g(b)
        },
        Node::Bit { src, bit } => (g(src) >> (bit as u64)) & 1u64,
        Node::Resize { src, .. } => mask_of(g(src), w),
        Node::Repeat { src, .. } => if g(src) & 1u64 == 1u64 {
            mask_of(u64::MAX, w)
        } else {
            0
        },
        Node::Mux { c, t, f } => if g(c) & 1u64 == 1u64 {
            g(t)
        } else {
            g(f)
        },
        Node::Any(a) => flag(g(a) != 0),
    }
}

/// May `n` stand in `g` with width `w`, its operands being of the widths it wants?
pub open spec fn typed_as(g: Graph, rw: Seq<u32>, iw: Seq<u32>, n: Node, w: u32) -> bool {
    &&& 1 <= w <= 64
    &&& operands_below(n, g.nodes.len() as int)
    &&& match n {
        Node::Const { value, width } => width == w && fits(value, w),
        Node::Reg(r) => r < rw.len() && rw[r as int] == w,
        Node::Input(k) => k < iw.len() && iw[k as int] == w,
        Node::Not(a) => g.width(a) == w,
        Node::And(a, b) => g.width(a) == w && g.width(b) == w,
        Node::Or(a, b) => g.width(a) == w && g.width(b) == w,
        Node::Xor(a, b) => g.width(a) == w && g.width(b) == w,
        Node::Add(a, b) => g.width(a) == w && g.width(b) == w,
        Node::Mul(a, b) => g.width(a) == w && g.width(b) == w,
        Node::Lt(a, b) => g.width(a) == g.width(b) && w == 1,
        Node::Eq(a, b) => g.width(a) == g.width(b) && w == 1,
        Node::Shl(a, b) => g.width(a) == w,
        Node::Shr(a, b) => g.width(a) == w,
        Node::Bit { src, bit } => bit < g.width(src) && w == 1,
        Node::Resize { src, width } => width == w,
        Node::Repeat { src, width } => width == w && g.width(src) == 1,
        Node::Mux { c, t, f } => g.width(c) == 1 && g.width(t) == w && g.width(f) == w,
        Node::Any(a) => w == 1,
    }
}

/// May a constructor leave `n` in `g` with width `w`? Constants are cut to their width,
/// nothing that folds is negated, and a node has the width of what it is made of.
pub open spec fn folded_as(g: Graph, n: Node, w: u32) -> bool {
    match n {
        Node::Const { value, width } => width == w && fits(value, w),
        Node::Reg(_) => true,
        Node::Input(_) => true,
        Node::Not(a) => w == g.width(a) && !(g.node(a) is Const) && !(g.node(a) is Not),
        Node::And(a, b) => a <= b && (w == g.width(a) || w == g.width(b)),
        Node::Or(a, b) => a <= b && (w == g.width(a) || w == g.width(b)),
        Node::Xor(a, b) => a <= b && (w == g.width(a) || w == g.width(b)),
        Node::Add(a, b) => a <= b && (w == g.width(a) || w == g.width(b)),
        Node::Mul(a, b) => a <= b && (w == g.width(a) || w == g.width(b)),
        Node::Lt(_, _) => w == 1,
        Node::Eq(a, b) => a <= b && w == 1,
        Node::Shl(a, _) => w == g.width(a),
        Node::Shr(a, _) => w == g.width(a),
        Node::Bit { .. } => w == 1,
        Node::Resize { width, .. } => w == width,
        Node::Repeat { width, .. } => w == width,
        Node::Mux { t, .. } => w == g.width(t),
        Node::Any(_) => w == 1,
    }
}

impl Graph {
    pub open spec fn len(self) -> nat {
        self.nodes.len()
    }

    pub open spec fn node(self, id: NodeId) -> Node {
        self.nodes[id as int]
    }

    pub open spec fn width(self, id: NodeId) -> u32 {
        self.widths[id as int]
    }

    /// The value of a node, for given register and input values.
    pub open spec fn value(self, regs: Seq<u64>, ins: Seq<u64>, id: NodeId) -> u64
        decreases id,
    {
        node_value(
            self.nodes[id as int],
            self.widths[id as int],
            regs,
            ins,
            |x: u32|
                if x < id {
                    self.value(regs, ins, x)
                } else {
                    0
                },
        )
    }

    /// Operands come before users, no node occurs twice.
    pub open spec fn acyclic(self) -> bool {
        &&& self.nodes.len() == self.widths.len()
        &&& self.nodes.len() <= u32::MAX
        &&& self.nodes.no_duplicates()
        &&& forall|i: int|
            0 <= i < self.nodes.len() ==> operands_below(#[trigger] self.nodes[i], i)
    }

    /// Every node is one that the constructors leave.
    pub open spec fn folded(self) -> bool {
        forall|i: int|
            0 <= i < self.nodes.len() ==> folded_as(self, #[trigger] self.nodes[i], self.widths[i])
    }

    /// Everything in the graph has the width it should have, from 1 to 64 bits.
    pub open spec fn typed(self, rw: Seq<u32>, iw: Seq<u32>) -> bool {
        &&& self.acyclic()
        &&& forall|i: int|
            0 <= i < self.nodes.len() ==> typed_as(
                self,
                rw,
                iw,
                #[trigger] self.nodes[i],
                self.widths[i],
            )
    }

    /// `self` grew into `later`: what was there keeps its id.
    pub open spec fn prefix_of(self, later: Graph) -> bool {
        &&& self.nodes.len() <= later.nodes.len()
        &&& self.widths.len() == self.nodes.len()
        &&& later.widths.len() == later.nodes.len()
        &&& forall|i: int|
            0 <= i < self.nodes.len() ==> #[trigger] later.nodes[i] == self.nodes[i]
        &&& forall|i: int|
            0 <= i < self.nodes.len() ==> #[trigger] later.widths[i] == self.widths[i]
    }

    /// The id of `n`: the one it has, or the next free one.
    pub open spec fn intern(self, n: Node, w: u32) -> (Graph, NodeId) {
        if self.nodes.contains(n) {
            (self, self.nodes.index_of(n) as u32)
        } else {
            (
                Graph { nodes: self.nodes.push(n), widths: self.widths.push(w) },
                self.nodes.len() as u32,
            )
        }
    }

    pub open spec fn constant(self, value: u64, width: u32) -> (Graph, NodeId) {
        self.intern(Node::Const { value: mask_of(value, width), width }, width)
    }

    pub open spec fn not(self, a: NodeId) -> (Graph, NodeId) {
        match self.node(a) {
            Node::Const { value, .. } => self.constant(!value, self.width(a)),
            Node::Not(inner) => (self, inner),
            _ => self.intern(Node::Not(a), self.width(a)),
        }
    }

    pub open spec fn and(self, a: NodeId, b: NodeId) -> (Graph, NodeId) {
        match (self.node(a), self.node(b)) {
            (Node::Const { value: x, .. }, Node::Const { value: y, .. }) => self.constant(
                x & y,
                self.width(a),
            ),
            _ => if a == b {
                (self, a)
            } else {
                self.intern(Node::And(low(a, b), high(a, b)), self.width(a))
            },
        }
    }

    pub open spec fn or(self, a: NodeId, b: NodeId) -> (Graph, NodeId) {
        match (self.node(a), self.node(b)) {
            (Node::Const { value: x, .. }, Node::Const { value: y, .. }) => self.constant(
                x | y,
                self.width(a),
            ),
            _ => if a == b {
                (self, a)
            } else {
                self.intern(Node::Or(low(a, b), high(a, b)), self.width(a))
            },
        }
    }

    pub open spec fn xor(self, a: NodeId, b: NodeId) -> (Graph, NodeId) {
        match (self.node(a), self.node(b)) {
            (Node::Const { value: x, .. }, Node::Const { value: y, .. }) => self.constant(
                x ^ y,
                self.width(a),
            ),
            _ => if a == b {
                self.constant(0, self.width(a))
            } else {
                self.intern(Node::Xor(low(a, b), high(a, b)), self.width(a))
            },
        }
    }

    pub open spec fn add(self, a: NodeId, b: NodeId) -> (Graph, NodeId) {
        match (self.node(a), self.node(b)) {
            (Node::Const { value: x, .. }, Node::Const { value: y, .. }) => self.constant(
                ((x + y) % 0x1_0000_0000_0000_0000) as u64,
                self.width(a),
            ),
            _ => self.intern(Node::Add(low(a, b), high(a, b)), self.width(a)),
        }
    }

    pub open spec fn sub(self, a: NodeId, b: NodeId) -> (Graph, NodeId) {
        match (self.node(a), self.node(b)) {
            (Node::Const { value: x, .. }, Node::Const { value: y, .. }) => self.constant(
                ((x - y) % 0x1_0000_0000_0000_0000) as u64,
                self.width(a),
            ),
            _ => {
                let (g1, nb) = self.not(b);
                let (g2, one) = g1.constant(1, self.width(a));
                let (g3, t) = g2.add(a, nb);
                g3.add(t, one)
            },
        }
    }

    pub open spec fn mul(self, a: NodeId, b: NodeId) -> (Graph, NodeId) {
        match (self.node(a), self.node(b)) {
            (Node::Const { value: x, .. }, Node::Const { value: y, .. }) => self.constant(
                ((x * y) % 0x1_0000_0000_0000_0000) as u64,
                self.width(a),
            ),
            _ => self.intern(Node::Mul(low(a, b), high(a, b)), self.width(a)),
        }
    }

    pub open spec fn lt(self, a: NodeId, b: NodeId) -> (Graph, NodeId) {
        match (self.node(a), self.node(b)) {
            (Node::Const { value: x, .. }, Node::Const { value: y, .. }) => self.constant(
                flag(x < y),
                1,
            ),
            _ => if a == b {
                self.constant(0, 1)
            } else {
                self.intern(Node::Lt(a, b), 1)
            },
        }
    }

    pub open spec fn eq(self, a: NodeId, b: NodeId) -> (Graph, NodeId) {
        match (self.node(a), self.node(b)) {
            (Node::Const { value: x, .. }, Node::Const { value: y, .. }) => self.constant(
                flag(x == y),
                1,
            ),
            _ => if a == b {
                self.constant(1, 1)
            } else {
                self.intern(Node::Eq(low(a, b), high(a, b)), 1)
            },
        }
    }

    pub open spec fn shl(self, a: NodeId, b: NodeId) -> (Graph, NodeId) {
        match (self.node(a), self.node(b)) {
            (Node::Const { value: x, .. }, Node::Const { value: s, .. }) => self.constant(
                if s >= 64 {
                    0
                } else {
                    x << s
                },
                self.width(a),
            ),
            _ => self.intern(Node::Shl(a, b), self.width(a)),
        }
    }

    pub open spec fn shr(self, a: NodeId, b: NodeId) -> (Graph, NodeId) {
        match (self.node(a), self.node(b)) {
            (Node::Const { value: x, .. }, Node::Const { value: s, .. }) => self.constant(
                if s >= 64 {
                    0
                } else {
                    mask_of(x, self.width(a)) >> s
                },
                self.width(a),
            ),
            _ => self.intern(Node::Shr(a, b), self.width(a)),
        }
    }

    pub open spec fn bit(self, src: NodeId, bit: u32) -> (Graph, NodeId) {
        if bit >= self.width(src) {
            self.constant(0, 1)
        } else {
            match self.node(src) {
                Node::Const { value, .. } => self.constant((value >> (bit as u64)) & 1u64, 1),
                _ => self.intern(Node::Bit { src, bit }, 1),
            }
        }
    }

    pub open spec fn resize(self, src: NodeId, width: u32) -> (Graph, NodeId) {
        if self.width(src) == width {
            (self, src)
        } else {
            match self.node(src) {
                Node::Const { value, .. } => self.constant(value, width),
                _ => self.intern(Node::Resize { src, width }, width),
            }
        }
    }

    pub open spec fn repeat(self, src: NodeId, width: u32) -> (Graph, NodeId) {
        match self.node(src) {
            Node::Const { value, .. } => self.constant(
                if value & 1u64 == 1u64 {
                    u64::MAX
                } else {
                    0
                },
                width,
            ),
            _ => self.intern(Node::Repeat { src, width }, width),
        }
    }

    pub open spec fn mux(self, c: NodeId, t: NodeId, f: NodeId) -> (Graph, NodeId) {
        if t == f {
            (self, t)
        } else {
            match self.node(c) {
                Node::Const { value, .. } => (
                    self,
                    if value & 1u64 == 1u64 {
                        t
                    } else {
                        f
                    },
                ),
                _ => self.intern(Node::Mux { c, t, f }, self.width(t)),
            }
        }
    }

    pub open spec fn any(self, a: NodeId) -> (Graph, NodeId) {
        if self.width(a) == 1 {
            (self, a)
        } else {
            match self.node(a) {
                Node::Const { value, .. } => self.constant(flag(value != 0), 1),
                _ => self.intern(Node::Any(a), 1),
            }
        }
    }

    pub open spec fn ne(self, a: NodeId, b: NodeId) -> (Graph, NodeId) {
        let (g, e) = self.eq(a, b);
        g.not(e)
    }

    pub open spec fn le(self, a: NodeId, b: NodeId) -> (Graph, NodeId) {
        let (g, l) = self.lt(b, a);
        g.not(l)
    }

    pub open spec fn ge(self, a: NodeId, b: NodeId) -> (Graph, NodeId) {
        let (g, l) = self.lt(a, b);
        g.not(l)
    }
}

/// The smaller of two ids.
pub open spec fn low(a: NodeId, b: NodeId) -> NodeId {
    if a <= b {
        a
    } else {
        b
    }
}

/// The larger of two ids.
pub open spec fn high(a: NodeId, b: NodeId) -> NodeId {
    if a <= b {
        b
    } else {
        a
    }
}

/// One more node leaves the others as they were.
proof fn lemma_folded_push(g: Graph, n: Node, w: u32)
    requires
        g.acyclic(),
        g.folded(),
        operands_below(n, g.len() as int),
        folded_as(g, n, w),
    ensures
        (Graph { nodes: g.nodes.push(n), widths: g.widths.push(w) }).folded(),
{
    let h = Graph { nodes: g.nodes.push(n), widths: g.widths.push(w) };
    assert forall|i: int| 0 <= i < h.nodes.len() implies folded_as(h, #[trigger] h.nodes[i], h.widths[i]) by {
        let x = h.nodes[i];
        if i < g.nodes.len() {
            assert(folded_as(g, g.nodes[i], g.widths[i]));
            assert(operands_below(g.nodes[i], i));
        }
        let o = node_operands(x);
        assert(o.len() > 0 ==> o[0] < g.len());
        assert(o.len() > 1 ==> o[1] < g.len());
        assert(o.len() > 2 ==> o[2] < g.len());
    }
}

// --- hash-consing --------------------------------------------------------

/// A node as three numbers that say which node it is.
spec fn key_parts(n: Node) -> (int, int, int) {
    match n {
        Node::Const { value, width } => (0, value as int, width as int),
        Node::Reg(r) => (1, 0, r as int),
        Node::Input(i) => (2, 0, i as int),
        Node::Not(a) => (3, 0, a as int),
        Node::And(a, b) => (4, a as int, b as int),
        Node::Or(a, b) => (5, a as int, b as int),
        Node::Xor(a, b) => (6, a as int, b as int),
        Node::Add(a, b) => (7, a as int, b as int),
        Node::Lt(a, b) => (8, a as int, b as int),
        Node::Eq(a, b) => (9, a as int, b as int),
        Node::Mul(a, b) => (10, a as int, b as int),
        Node::Shl(a, b) => (11, a as int, b as int),
        Node::Shr(a, b) => (12, a as int, b as int),
        Node::Bit { src, bit } => (13, src as int, bit as int),
        Node::Resize { src, width } => (14, src as int, width as int),
        Node::Mux { c, t, f } => (15, c * 0x1_0000_0000 + t, f as int),
        Node::Any(a) => (16, 0, a as int),
        Node::Repeat { src, width } => (17, src as int, width as int),
    }
}

spec fn key_of(n: Node) -> u128 {
    let (tag, hi, lo) = key_parts(n);
    (tag * 0x1_0000_0000_0000_0000_0000_0000 + hi * 0x1_0000_0000 + lo) as u128
}

proof fn lemma_key_injective(a: Node, b: Node)
    requires
        key_of(a) == key_of(b),
    ensures
        a == b,
{
    let (t1, h1, l1) = key_parts(a);
    let (t2, h2, l2) = key_parts(b);
    assert(0 <= l1 < 0x1_0000_0000 && 0 <= h1 < 0x1_0000_0000_0000_0000 && 0 <= t1 <= 17);
    assert(0 <= l2 < 0x1_0000_0000 && 0 <= h2 < 0x1_0000_0000_0000_0000 && 0 <= t2 <= 17);
    assert(t1 == t2 && h1 == h2 && l1 == l2);
}

fn key3(tag: u128, hi: u64, lo: u32) -> (k: u128)
    requires
        tag <= 17,
    ensures
        k == tag * 0x1_0000_0000_0000_0000_0000_0000 + hi * 0x1_0000_0000 + lo,
{
    tag * 0x1_0000_0000_0000_0000_0000_0000 + (hi as u128) * 0x1_0000_0000 + lo as u128
}

fn node_key(n: Node) -> (k: u128)
    ensures
        k == key_of(n),
{
    match n {
        Node::Const { value, width } => key3(0, value, width),
        Node::Reg(r) => key3(1, 0, r),
        Node::Input(i) => key3(2, 0, i),
        Node::Not(a) => key3(3, 0, a),
        Node::And(a, b) => key3(4, a as u64, b),
        Node::Or(a, b) => key3(5, a as u64, b),
        Node::Xor(a, b) => key3(6, a as u64, b),
        Node::Add(a, b) => key3(7, a as u64, b),
        Node::Lt(a, b) => key3(8, a as u64, b),
        Node::Eq(a, b) => key3(9, a as u64, b),
        Node::Mul(a, b) => key3(10, a as u64, b),
        Node::Shl(a, b) => key3(11, a as u64, b),
        Node::Shr(a, b) => key3(12, a as u64, b),
        Node::Bit { src, bit } => key3(13, src as u64, bit),
        Node::Resize { src, width } => key3(14, src as u64, width),
        Node::Mux { c, t, f } => key3(15, (c as u64) * 0x1_0000_0000 + t as u64, f),
        Node::Any(a) => key3(16, 0, a),
        Node::Repeat { src, width } => key3(17, src as u64, width),
    }
}

/// Commutative operands are sorted so `a op b` and `b op a` hash-cons together.
fn order(a: NodeId, b: NodeId) -> (r: (NodeId, NodeId))
    ensures
        r == (low(a, b), high(a, b)),
{
    if a <= b {
        (a, b)
    } else {
        (b, a)
    }
}

/// The low `width` bits of `v`.
pub fn mask(v: u64, width: u32) -> (r: u64)
    ensures
        r == mask_of(v, width),
{
    if width >= 64 {
        v
    } else {
        proof {
            let w = width as u64;
            assert(1u64 << w >= 1u64) by (bit_vector)
                requires
                    w < 64u64,
            ;
        }
        v & ((1u64 << (width as u64)) - 1)
    }
}

// --- designs -------------------------------------------------------------

impl View for NodeTable {
    type V = Graph;

    closed spec fn view(&self) -> Graph {
        Graph { nodes: self.nodes@, widths: self.widths@ }
    }
}

impl NodeTable {
    /// The hash table knows every node under its id, and nothing else.
    pub closed spec fn indexed(&self) -> bool {
        &&& forall|i: int|
            0 <= i < self.nodes@.len() ==> self.hash@.contains_key(
                key_of(#[trigger] self.nodes@[i]),
            ) && self.hash@[key_of(self.nodes@[i])] == i
        &&& forall|k: u128| #[trigger]
            self.hash@.contains_key(k) ==> self.hash@[k] < self.nodes@.len() && key_of(
                self.nodes@[self.hash@[k] as int],
            ) == k
    }
}

/// The parts of a design that building expressions leaves alone.
pub open spec fn same_frame(a: &Design, b: &Design) -> bool {
    &&& a.regs == b.regs
    &&& a.inputs == b.inputs
    &&& a.outputs == b.outputs
    &&& a.blocks == b.blocks
    &&& a.entry == b.entry
}

/// A basic block, its label as characters.
#[verifier::ext_equal]
pub struct BlockTree {
    pub label: Seq<char>,
    pub assigns: Seq<(RegId, NodeId)>,
    pub term: Term,
}

/// A register or a port: its name and its width.
#[verifier::ext_equal]
pub struct Signal {
    pub name: Seq<char>,
    pub width: u32,
}

/// A design as a mathematical value. Registers start at zero.
#[verifier::ext_equal]
pub struct DesignTree {
    pub graph: Graph,
    pub regs: Seq<Signal>,
    pub inputs: Seq<Signal>,
    pub outputs: Seq<(Seq<char>, RegId)>,
    pub blocks: Seq<BlockTree>,
    pub entry: BlockId,
}

pub open spec fn block_tree(b: BasicBlock) -> BlockTree {
    BlockTree { label: b.label@, assigns: b.assigns@, term: b.term }
}

impl Default for Design {
    fn default() -> (d: Design)
        ensures
            d.wf(),
            d.graph() == (Graph { nodes: seq![], widths: seq![] }),
            d.regs@.len() == 0,
            d.inputs@.len() == 0,
            d.outputs@.len() == 0,
            d.blocks@.len() == 0,
            d.entry == 0,
    {
        Design::new()
    }
}

impl Design {
    /// The design as a mathematical value, for registers that start at zero.
    pub open spec fn tree(&self) -> DesignTree {
        DesignTree {
            graph: self.graph(),
            regs: Seq::new(
                self.regs@.len(),
                |i: int| Signal { name: self.regs@[i].name@, width: self.regs@[i].width },
            ),
            inputs: Seq::new(
                self.inputs@.len(),
                |i: int| Signal { name: self.inputs@[i].name@, width: self.inputs@[i].width },
            ),
            outputs: Seq::new(
                self.outputs@.len(),
                |i: int| (self.outputs@[i].0@, self.outputs@[i].1),
            ),
            blocks: Seq::new(self.blocks@.len(), |i: int| block_tree(self.blocks@[i])),
            entry: self.entry,
        }
    }

    /// All registers start at zero.
    pub open spec fn zero_start(&self) -> bool {
        forall|i: int| 0 <= i < self.regs@.len() ==> (#[trigger] self.regs@[i]).reset == 0
    }

    /// The expression graph.
    pub open spec fn graph(&self) -> Graph {
        self.table@
    }

    /// The invariant of every design.
    pub open spec fn wf(&self) -> bool {
        &&& self.table.indexed()
        &&& self.graph().acyclic()
        &&& self.graph().folded()
    }

    pub open spec fn reg_widths(&self) -> Seq<u32> {
        Seq::new(self.regs@.len(), |i: int| self.regs@[i].width)
    }

    pub open spec fn input_widths(&self) -> Seq<u32> {
        Seq::new(self.inputs@.len(), |i: int| self.inputs@[i].width)
    }

    /// Is there room for `k` more nodes?
    pub open spec fn room(&self, k: int) -> bool {
        self.graph().len() + k <= u32::MAX
    }

    pub fn new() -> (d: Design)
        ensures
            d.wf(),
            d.graph() == (Graph { nodes: seq![], widths: seq![] }),
            d.regs@.len() == 0,
            d.inputs@.len() == 0,
            d.outputs@.len() == 0,
            d.blocks@.len() == 0,
            d.entry == 0,
    {
        Design {
            table: NodeTable { nodes: Vec::new(), widths: Vec::new(), hash: HashMap::new() },
            regs: Vec::new(),
            inputs: Vec::new(),
            outputs: Vec::new(),
            blocks: Vec::new(),
            entry: 0,
        }
    }

    pub fn node(&self, id: NodeId) -> (n: Node)
        requires
            id < self.graph().len(),
        ensures
            n == self.graph().node(id),
    {
        self.table.nodes[id as usize]
    }

    pub fn width(&self, id: NodeId) -> (w: u32)
        requires
            self.wf(),
            id < self.graph().len(),
        ensures
            w == self.graph().width(id),
    {
        self.table.widths[id as usize]
    }

    pub fn node_count(&self) -> (n: usize)
        ensures
            n == self.graph().len(),
    {
        self.table.nodes.len()
    }

    /// Intern a node of the given width. Returns an existing id when an
    /// identical node was already built.
    fn intern(&mut self, n: Node, width: u32) -> (id: NodeId)
        requires
            old(self).wf(),
            old(self).room(1),
            operands_below(n, old(self).graph().len() as int),
            folded_as(old(self).graph(), n, width),
        ensures
            final(self).wf(),
            same_frame(old(self), final(self)),
            (final(self).graph(), id) == old(self).graph().intern(n, width),
            id < final(self).graph().len(),
    {
        let key: u128 = node_key(n);
        if let Some(id) = self.table.hash.get(&key) {
            let id: u32 = *id;
            proof {
                lemma_key_injective(self.table.nodes@[id as int], n);
                assert(self.table.nodes@.contains(n));
                assert(self.table.nodes@.index_of(n) == id);
            }
            return id;
        }
        let id: u32 = self.table.nodes.len() as u32;
        let ghost nodes0 = self.table.nodes@;
        let ghost hash0 = self.table.hash@;
        proof {
            if nodes0.contains(n) {
                let i = choose|i: int| 0 <= i < nodes0.len() && nodes0[i] == n;
                assert(hash0.contains_key(key_of(nodes0[i])));
            }
        }
        let ghost g0 = self.graph();
        self.table.nodes.push(n);
        self.table.widths.push(width);
        self.table.hash.insert(key, id);
        proof {
            lemma_folded_push(g0, n, width);
            assert forall|i: int| 0 <= i < self.table.nodes@.len() implies self.table.hash@.contains_key(
                key_of(#[trigger] self.table.nodes@[i]),
            ) && self.table.hash@[key_of(self.table.nodes@[i])] == i by {
                if i < nodes0.len() {
                    assert(self.table.nodes@[i] == nodes0[i]);
                    assert(hash0.contains_key(key_of(nodes0[i])));
                }
            }
            assert forall|i: int| 0 <= i < self.table.nodes@.len() implies operands_below(
                #[trigger] self.table.nodes@[i],
                i,
            ) by {
                if i < nodes0.len() {
                    assert(self.table.nodes@[i] == nodes0[i]);
                }
            }
        }
        id
    }

    pub fn add_reg(&mut self, name: &str, width: u32) -> (id: RegId)
        requires
            old(self).regs@.len() < u32::MAX,
        ensures
            id == old(self).regs@.len(),
            final(self).regs@.len() == old(self).regs@.len() + 1,
            forall|i: int|
                0 <= i < old(self).regs@.len() ==> #[trigger] final(self).regs@[i] == old(
                    self,
                ).regs@[i],
            final(self).regs@[id as int].name@ == name@,
            final(self).regs@[id as int].width == width,
            final(self).regs@[id as int].reset == 0,
            final(self).graph() == old(self).graph(),
            old(self).wf() ==> final(self).wf(),
            final(self).inputs == old(self).inputs,
            final(self).outputs == old(self).outputs,
            final(self).blocks == old(self).blocks,
            final(self).entry == old(self).entry,
    {
        let id: u32 = self.regs.len() as u32;
        self.regs.push(RegDecl { name: name.to_owned(), width, reset: 0 });
        id
    }

    pub fn add_input(&mut self, name: &str, width: u32) -> (id: u32)
        requires
            old(self).inputs@.len() < u32::MAX,
        ensures
            id == old(self).inputs@.len(),
            final(self).inputs@.len() == old(self).inputs@.len() + 1,
            forall|i: int|
                0 <= i < old(self).inputs@.len() ==> #[trigger] final(self).inputs@[i] == old(
                    self,
                ).inputs@[i],
            final(self).inputs@[id as int].name@ == name@,
            final(self).inputs@[id as int].width == width,
            final(self).graph() == old(self).graph(),
            old(self).wf() ==> final(self).wf(),
            final(self).regs == old(self).regs,
            final(self).outputs == old(self).outputs,
            final(self).blocks == old(self).blocks,
            final(self).entry == old(self).entry,
    {
        let id: u32 = self.inputs.len() as u32;
        self.inputs.push(PortDecl { name: name.to_owned(), width });
        id
    }

    pub fn add_block(&mut self, label: &str) -> (id: BlockId)
        requires
            old(self).blocks@.len() < u32::MAX,
        ensures
            id == old(self).blocks@.len(),
            final(self).blocks@.len() == old(self).blocks@.len() + 1,
            forall|i: int|
                0 <= i < old(self).blocks@.len() ==> #[trigger] final(self).blocks@[i] == old(
                    self,
                ).blocks@[i],
            final(self).blocks@[id as int].label@ == label@,
            final(self).blocks@[id as int].assigns@.len() == 0,
            final(self).blocks@[id as int].term == Term::Halt,
            final(self).graph() == old(self).graph(),
            old(self).wf() ==> final(self).wf(),
            final(self).regs == old(self).regs,
            final(self).inputs == old(self).inputs,
            final(self).outputs == old(self).outputs,
            final(self).entry == old(self).entry,
    {
        let id: u32 = self.blocks.len() as u32;
        self.blocks.push(
            BasicBlock { label: label.to_owned(), assigns: Vec::new(), term: Term::Halt },
        );
        id
    }

    // --- constructors ----------------------------------------------------

    pub fn constant(&mut self, value: u64, width: u32) -> (id: NodeId)
        requires
            old(self).wf(),
            old(self).room(1),
        ensures
            final(self).wf(),
            same_frame(old(self), final(self)),
            (final(self).graph(), id) == old(self).graph().constant(value, width),
            id < final(self).graph().len(),
    {
        proof {
            crate::bits::lemma_mask_idempotent(value, width);
        }
        let value: u64 = mask(value, width);
        self.intern(Node::Const { value, width }, width)
    }

    pub fn zero(&mut self, width: u32) -> (id: NodeId)
        requires
            old(self).wf(),
            old(self).room(1),
        ensures
            final(self).wf(),
            same_frame(old(self), final(self)),
            (final(self).graph(), id) == old(self).graph().constant(0, width),
            id < final(self).graph().len(),
    {
        self.constant(0, width)
    }

    pub fn one(&mut self, width: u32) -> (id: NodeId)
        requires
            old(self).wf(),
            old(self).room(1),
        ensures
            final(self).wf(),
            same_frame(old(self), final(self)),
            (final(self).graph(), id) == old(self).graph().constant(1, width),
            id < final(self).graph().len(),
    {
        self.constant(1, width)
    }

    pub fn reg(&mut self, r: RegId) -> (id: NodeId)
        requires
            old(self).wf(),
            old(self).room(1),
            r < old(self).regs@.len(),
        ensures
            final(self).wf(),
            same_frame(old(self), final(self)),
            (final(self).graph(), id) == old(self).graph().intern(
                Node::Reg(r),
                old(self).regs@[r as int].width,
            ),
            id < final(self).graph().len(),
    {
        let w: u32 = self.regs[r as usize].width;
        self.intern(Node::Reg(r), w)
    }

    pub fn input(&mut self, i: u32) -> (id: NodeId)
        requires
            old(self).wf(),
            old(self).room(1),
            i < old(self).inputs@.len(),
        ensures
            final(self).wf(),
            same_frame(old(self), final(self)),
            (final(self).graph(), id) == old(self).graph().intern(
                Node::Input(i),
                old(self).inputs@[i as int].width,
            ),
            id < final(self).graph().len(),
    {
        let w: u32 = self.inputs[i as usize].width;
        self.intern(Node::Input(i), w)
    }

    pub fn not(&mut self, a: NodeId) -> (id: NodeId)
        requires
            old(self).wf(),
            old(self).room(1),
            a < old(self).graph().len(),
        ensures
            final(self).wf(),
            same_frame(old(self), final(self)),
            (final(self).graph(), id) == old(self).graph().not(a),
            id < final(self).graph().len(),
    {
        let w: u32 = self.width(a);
        if let Node::Const { value, .. } = self.node(a) {
            return self.constant(!value, w);
        }
        // Double negation cancels.
        if let Node::Not(inner) = self.node(a) {
            assert(node_operands(self.table.nodes@[a as int])[0] == inner);
            return inner;
        }
        self.intern(Node::Not(a), w)
    }

    pub fn and(&mut self, a: NodeId, b: NodeId) -> (id: NodeId)
        requires
            old(self).wf(),
            old(self).room(1),
            a < old(self).graph().len(),
            b < old(self).graph().len(),
        ensures
            final(self).wf(),
            same_frame(old(self), final(self)),
            (final(self).graph(), id) == old(self).graph().and(a, b),
            id < final(self).graph().len(),
    {
        let w: u32 = self.width(a);
        if let (Node::Const { value: x, .. }, Node::Const { value: y, .. }) = (
            self.node(a),
            self.node(b),
        ) {
            return self.constant(x & y, w);
        }
        if a == b {
            return a;
        }
        let (a, b) = order(a, b);
        self.intern(Node::And(a, b), w)
    }

    pub fn or(&mut self, a: NodeId, b: NodeId) -> (id: NodeId)
        requires
            old(self).wf(),
            old(self).room(1),
            a < old(self).graph().len(),
            b < old(self).graph().len(),
        ensures
            final(self).wf(),
            same_frame(old(self), final(self)),
            (final(self).graph(), id) == old(self).graph().or(a, b),
            id < final(self).graph().len(),
    {
        let w: u32 = self.width(a);
        if let (Node::Const { value: x, .. }, Node::Const { value: y, .. }) = (
            self.node(a),
            self.node(b),
        ) {
            return self.constant(x | y, w);
        }
        if a == b {
            return a;
        }
        let (a, b) = order(a, b);
        self.intern(Node::Or(a, b), w)
    }

    pub fn xor(&mut self, a: NodeId, b: NodeId) -> (id: NodeId)
        requires
            old(self).wf(),
            old(self).room(1),
            a < old(self).graph().len(),
            b < old(self).graph().len(),
        ensures
            final(self).wf(),
            same_frame(old(self), final(self)),
            (final(self).graph(), id) == old(self).graph().xor(a, b),
            id < final(self).graph().len(),
    {
        let w: u32 = self.width(a);
        if let (Node::Const { value: x, .. }, Node::Const { value: y, .. }) = (
            self.node(a),
            self.node(b),
        ) {
            return self.constant(x ^ y, w);
        }
        if a == b {
            return self.zero(w);
        }
        let (a, b) = order(a, b);
        self.intern(Node::Xor(a, b), w)
    }

    pub fn add(&mut self, a: NodeId, b: NodeId) -> (id: NodeId)
        requires
            old(self).wf(),
            old(self).room(1),
            a < old(self).graph().len(),
            b < old(self).graph().len(),
        ensures
            final(self).wf(),
            same_frame(old(self), final(self)),
            (final(self).graph(), id) == old(self).graph().add(a, b),
            id < final(self).graph().len(),
    {
        let w: u32 = self.width(a);
        if let (Node::Const { value: x, .. }, Node::Const { value: y, .. }) = (
            self.node(a),
            self.node(b),
        ) {
            return self.constant(x.wrapping_add(y), w);
        }
        let (a, b) = order(a, b);
        self.intern(Node::Add(a, b), w)
    }

    /// Two's complement subtraction: `a + ~b + 1`, all at width `w`.
    pub fn sub(&mut self, a: NodeId, b: NodeId) -> (id: NodeId)
        requires
            old(self).wf(),
            old(self).room(4),
            a < old(self).graph().len(),
            b < old(self).graph().len(),
        ensures
            final(self).wf(),
            same_frame(old(self), final(self)),
            (final(self).graph(), id) == old(self).graph().sub(a, b),
            id < final(self).graph().len(),
    {
        let w: u32 = self.width(a);
        if let (Node::Const { value: x, .. }, Node::Const { value: y, .. }) = (
            self.node(a),
            self.node(b),
        ) {
            return self.constant(x.wrapping_sub(y), w);
        }
        let nb: u32 = self.not(b);
        let one: u32 = self.one(w);
        let t: u32 = self.add(a, nb);
        self.add(t, one)
    }

    pub fn mul(&mut self, a: NodeId, b: NodeId) -> (id: NodeId)
        requires
            old(self).wf(),
            old(self).room(1),
            a < old(self).graph().len(),
            b < old(self).graph().len(),
        ensures
            final(self).wf(),
            same_frame(old(self), final(self)),
            (final(self).graph(), id) == old(self).graph().mul(a, b),
            id < final(self).graph().len(),
    {
        let w: u32 = self.width(a);
        if let (Node::Const { value: x, .. }, Node::Const { value: y, .. }) = (
            self.node(a),
            self.node(b),
        ) {
            return self.constant(x.wrapping_mul(y), w);
        }
        let (a, b) = order(a, b);
        self.intern(Node::Mul(a, b), w)
    }

    pub fn lt(&mut self, a: NodeId, b: NodeId) -> (id: NodeId)
        requires
            old(self).wf(),
            old(self).room(1),
            a < old(self).graph().len(),
            b < old(self).graph().len(),
        ensures
            final(self).wf(),
            same_frame(old(self), final(self)),
            (final(self).graph(), id) == old(self).graph().lt(a, b),
            id < final(self).graph().len(),
    {
        if let (Node::Const { value: x, .. }, Node::Const { value: y, .. }) = (
            self.node(a),
            self.node(b),
        ) {
            let bit: u64 = if x < y {
                1
            } else {
                0
            };
            return self.constant(bit, 1);
        }
        if a == b {
            return self.zero(1);
        }
        self.intern(Node::Lt(a, b), 1)
    }

    pub fn eq(&mut self, a: NodeId, b: NodeId) -> (id: NodeId)
        requires
            old(self).wf(),
            old(self).room(1),
            a < old(self).graph().len(),
            b < old(self).graph().len(),
        ensures
            final(self).wf(),
            same_frame(old(self), final(self)),
            (final(self).graph(), id) == old(self).graph().eq(a, b),
            id < final(self).graph().len(),
    {
        if let (Node::Const { value: x, .. }, Node::Const { value: y, .. }) = (
            self.node(a),
            self.node(b),
        ) {
            let bit: u64 = if x == y {
                1
            } else {
                0
            };
            return self.constant(bit, 1);
        }
        if a == b {
            return self.one(1);
        }
        let (a, b) = order(a, b);
        self.intern(Node::Eq(a, b), 1)
    }

    pub fn shl(&mut self, a: NodeId, b: NodeId) -> (id: NodeId)
        requires
            old(self).wf(),
            old(self).room(1),
            a < old(self).graph().len(),
            b < old(self).graph().len(),
        ensures
            final(self).wf(),
            same_frame(old(self), final(self)),
            (final(self).graph(), id) == old(self).graph().shl(a, b),
            id < final(self).graph().len(),
    {
        let w: u32 = self.width(a);
        if let (Node::Const { value: x, .. }, Node::Const { value: s, .. }) = (
            self.node(a),
            self.node(b),
        ) {
            let r: u64 = if s >= 64 {
                0
            } else {
                x << s
            };
            return self.constant(r, w);
        }
        self.intern(Node::Shl(a, b), w)
    }

    pub fn shr(&mut self, a: NodeId, b: NodeId) -> (id: NodeId)
        requires
            old(self).wf(),
            old(self).room(1),
            a < old(self).graph().len(),
            b < old(self).graph().len(),
        ensures
            final(self).wf(),
            same_frame(old(self), final(self)),
            (final(self).graph(), id) == old(self).graph().shr(a, b),
            id < final(self).graph().len(),
    {
        let w: u32 = self.width(a);
        if let (Node::Const { value: x, .. }, Node::Const { value: s, .. }) = (
            self.node(a),
            self.node(b),
        ) {
            let r: u64 = if s >= 64 {
                0
            } else {
                mask(x, w) >> s
            };
            return self.constant(r, w);
        }
        self.intern(Node::Shr(a, b), w)
    }

    pub fn bit(&mut self, src: NodeId, bit: u32) -> (id: NodeId)
        requires
            old(self).wf(),
            old(self).room(1),
            src < old(self).graph().len(),
            bit < 64 || bit >= old(self).graph().width(src),
        ensures
            final(self).wf(),
            same_frame(old(self), final(self)),
            (final(self).graph(), id) == old(self).graph().bit(src, bit),
            id < final(self).graph().len(),
    {
        if bit >= self.width(src) {
            return self.zero(1);
        }
        if let Node::Const { value, .. } = self.node(src) {
            return self.constant((value >> (bit as u64)) & 1u64, 1);
        }
        self.intern(Node::Bit { src, bit }, 1)
    }

    pub fn resize(&mut self, src: NodeId, width: u32) -> (id: NodeId)
        requires
            old(self).wf(),
            old(self).room(1),
            src < old(self).graph().len(),
        ensures
            final(self).wf(),
            same_frame(old(self), final(self)),
            (final(self).graph(), id) == old(self).graph().resize(src, width),
            id < final(self).graph().len(),
    {
        if self.width(src) == width {
            return src;
        }
        if let Node::Const { value, .. } = self.node(src) {
            return self.constant(value, width);
        }
        self.intern(Node::Resize { src, width }, width)
    }

    /// Broadcast a width-1 value into every bit of a `width`-bit word.
    pub fn repeat(&mut self, src: NodeId, width: u32) -> (id: NodeId)
        requires
            old(self).wf(),
            old(self).room(1),
            src < old(self).graph().len(),
            old(self).graph().width(src) == 1,
        ensures
            final(self).wf(),
            same_frame(old(self), final(self)),
            (final(self).graph(), id) == old(self).graph().repeat(src, width),
            id < final(self).graph().len(),
    {
        if let Node::Const { value, .. } = self.node(src) {
            let v: u64 = if value & 1u64 == 1u64 {
                u64::MAX
            } else {
                0
            };
            return self.constant(v, width);
        }
        self.intern(Node::Repeat { src, width }, width)
    }

    pub fn mux(&mut self, c: NodeId, t: NodeId, f: NodeId) -> (id: NodeId)
        requires
            old(self).wf(),
            old(self).room(1),
            c < old(self).graph().len(),
            t < old(self).graph().len(),
            f < old(self).graph().len(),
        ensures
            final(self).wf(),
            same_frame(old(self), final(self)),
            (final(self).graph(), id) == old(self).graph().mux(c, t, f),
            id < final(self).graph().len(),
    {
        if t == f {
            return t;
        }
        if let Node::Const { value, .. } = self.node(c) {
            return if value & 1u64 == 1u64 {
                t
            } else {
                f
            };
        }
        let w: u32 = self.width(t);
        self.intern(Node::Mux { c, t, f }, w)
    }

    /// Reduce to width 1: nonzero test.
    pub fn any(&mut self, a: NodeId) -> (id: NodeId)
        requires
            old(self).wf(),
            old(self).room(1),
            a < old(self).graph().len(),
        ensures
            final(self).wf(),
            same_frame(old(self), final(self)),
            (final(self).graph(), id) == old(self).graph().any(a),
            id < final(self).graph().len(),
    {
        if self.width(a) == 1 {
            return a;
        }
        if let Node::Const { value, .. } = self.node(a) {
            let bit: u64 = if value != 0 {
                1
            } else {
                0
            };
            return self.constant(bit, 1);
        }
        self.intern(Node::Any(a), 1)
    }

    // --- derived comparisons ---------------------------------------------

    pub fn ne(&mut self, a: NodeId, b: NodeId) -> (id: NodeId)
        requires
            old(self).wf(),
            old(self).room(2),
            a < old(self).graph().len(),
            b < old(self).graph().len(),
        ensures
            final(self).wf(),
            same_frame(old(self), final(self)),
            (final(self).graph(), id) == old(self).graph().ne(a, b),
            id < final(self).graph().len(),
    {
        let e: u32 = self.eq(a, b);
        self.not(e)
    }

    pub fn le(&mut self, a: NodeId, b: NodeId) -> (id: NodeId)
        requires
            old(self).wf(),
            old(self).room(2),
            a < old(self).graph().len(),
            b < old(self).graph().len(),
        ensures
            final(self).wf(),
            same_frame(old(self), final(self)),
            (final(self).graph(), id) == old(self).graph().le(a, b),
            id < final(self).graph().len(),
    {
        // a <= b  <=>  !(b < a)
        let g: u32 = self.lt(b, a);
        self.not(g)
    }

    pub fn gt(&mut self, a: NodeId, b: NodeId) -> (id: NodeId)
        requires
            old(self).wf(),
            old(self).room(2),
            a < old(self).graph().len(),
            b < old(self).graph().len(),
        ensures
            final(self).wf(),
            same_frame(old(self), final(self)),
            (final(self).graph(), id) == old(self).graph().lt(b, a),
            id < final(self).graph().len(),
    {
        self.lt(b, a)
    }

    pub fn ge(&mut self, a: NodeId, b: NodeId) -> (id: NodeId)
        requires
            old(self).wf(),
            old(self).room(2),
            a < old(self).graph().len(),
            b < old(self).graph().len(),
        ensures
            final(self).wf(),
            same_frame(old(self), final(self)),
            (final(self).graph(), id) == old(self).graph().ge(a, b),
            id < final(self).graph().len(),
    {
        let l: u32 = self.lt(a, b);
        self.not(l)
    }

    /// Every node reachable from `roots`, in topological order (operands before
    /// users).
    pub fn topo_order(&self, roots: &[NodeId]) -> (order: Vec<NodeId>)
        requires
            self.wf(),
            forall|k: int| 0 <= k < roots@.len() ==> (#[trigger] roots@[k]) < self.graph().len(),
        ensures
            is_topo_order(self, roots@, order@),
            order@ == walked(self, roots@),
    {
        topo_order(self, roots)
    }

    pub fn operands(&self, id: NodeId) -> (ops: Vec<NodeId>)
        requires
            id < self.graph().len(),
        ensures
            ops@ == node_operands(self.graph().node(id)),
    {
        match self.node(id) {
            Node::Const { .. } | Node::Reg(_) | Node::Input(_) => vec![],
            Node::Not(a) | Node::Any(a) => vec![a],
            Node::Bit { src, .. } | Node::Resize { src, .. } | Node::Repeat { src, .. } => vec![src],
            Node::And(a, b)
            | Node::Or(a, b)
            | Node::Xor(a, b)
            | Node::Add(a, b)
            | Node::Lt(a, b)
            | Node::Eq(a, b)
            | Node::Mul(a, b)
            | Node::Shl(a, b)
            | Node::Shr(a, b) => vec![a, b],
            Node::Mux { c, t, f } => vec![c, t, f],
        }
    }

    /// All node roots the design actually needs: block assignments and branch
    /// conditions.
    pub fn roots(&self) -> (roots: Vec<NodeId>)
        ensures
            roots@ == blocks_roots(self.blocks@),
    {
        let mut roots: Vec<NodeId> = Vec::new();
        for i in 0..self.blocks.len()
            invariant
                roots@ == blocks_roots(self.blocks@.take(i as int)),
        {
            let b = &self.blocks[i];
            let ghost before = roots@;
            for j in 0..b.assigns.len()
                invariant
                    roots@ == before + Seq::new(j as nat, |k: int| b.assigns@[k].1),
            {
                let (_, n) = b.assigns[j];
                roots.push(n);
                assert(roots@ =~= before + Seq::new((j + 1) as nat, |k: int| b.assigns@[k].1));
            }
            if let Term::Branch { cond, .. } = b.term {
                roots.push(cond);
            }
            proof {
                assert(self.blocks@.take(i + 1).drop_last() =~= self.blocks@.take(i as int));
                assert(roots@ =~= before + block_roots(*b));
            }
        }
        assert(self.blocks@.take(self.blocks@.len() as int) =~= self.blocks@);
        roots
    }
}

/// The nodes that a block reads: what it assigns, then its condition.
pub open spec fn block_roots(b: BasicBlock) -> Seq<NodeId> {
    Seq::new(b.assigns@.len(), |k: int| b.assigns@[k].1) + match b.term {
        Term::Branch { cond, .. } => seq![cond],
        _ => seq![],
    }
}

/// The nodes that the blocks read, block by block.
pub open spec fn blocks_roots(blocks: Seq<BasicBlock>) -> Seq<NodeId>
    decreases blocks.len(),
{
    if blocks.len() == 0 {
        seq![]
    } else {
        blocks_roots(blocks.drop_last()) + block_roots(blocks.last())
    }
}

impl Dag for Design {
    open spec fn spec_size(&self) -> nat {
        self.graph().len()
    }

    open spec fn spec_operands(&self, id: int) -> Seq<u32> {
        node_operands(self.graph().nodes[id])
    }

    open spec fn spec_acyclic(&self) -> bool {
        self.wf()
    }

    fn dag_size(&self) -> (n: usize) {
        self.node_count()
    }

    fn dag_operands(&self, id: u32) -> (ops: Vec<u32>) {
        self.operands(id)
    }

    proof fn lemma_descends(&self) {
        assert forall|id: int, k: int|
            0 <= id < self.spec_size() && 0 <= k < self.spec_operands(id).len() implies (
        #[trigger] self.spec_operands(id)[k]) < id by {
            assert(operands_below(self.graph().nodes[id], id));
        }
    }
}

} // verus!
