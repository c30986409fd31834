//! Word-level IR -> bit-level NOR netlist.
//!
//! Arithmetic becomes real structural hardware: ripple-carry adders, an
//! array multiplier, and logarithmic barrel shifters. Comparison reuses the
//! adder (`a < b` is the complement of the carry-out of `a + !b + 1`), which is
//! both cheaper and shares gates with any nearby subtraction thanks to
//! hash-consing.
//!
//! The FSM is one-hot encoded: one flip-flop per basic block, exactly one set.
//! That makes next-state logic a flat OR of AND terms and keeps the fan-in of
//! every register's update mux small.
use crate::bits::{
    bit, bits_of, fits, flag, lemma_all_ones, lemma_bit_logic, lemma_fits_bound,
    lemma_fits_high_bit, lemma_flag, lemma_low_bit, lemma_mask_bit, lemma_mask_idempotent,
    lemma_mask_of_wrapped, lemma_shl_bit, lemma_shr_bit, lemma_small, lemma_word_bound,
    lemma_word_injective, lemma_word_of_fitting, lemma_zero_bits, mask_of, word,
};
use crate::circuits::{
    array_multiply, barrel_shift, equal_rows, fill, lemma_grown_refl, lemma_stages_few, less_than,
    logic, mux_row, not_row, resized, ripple_add, shifted, stages_for, weight, zip_row, Logic,
};
use crate::graph::{is_topo_order, needed, Dag};
use crate::ir::{
    node_operands, operands_below, typed_as, BasicBlock, Design, Graph, Node, NodeId, RegId, Term,
};
use crate::ir_values::{lemma_bit_select, lemma_value, lemma_value_fits, regs_fit};
use crate::machine::{after, block_runnable, commit, initial, next, runnable, Config};
use crate::netlist::{
    any_high, clocked, grown, lemma_grown_trans, lemma_levels_kept, levels, port_value, row_wf,
    sig_value, Env, Gate, Netlist, Sig,
};
use crate::text::{decimal, push_decimal};
use std::collections::HashMap;
use vstd::arithmetic::power2::{lemma_pow2_pos, pow2};
use vstd::prelude::*;
use vstd::string::*;

verus! {

broadcast use vstd::std_specs::hash::group_hash_axioms;

// --- what can be turned into gates ---------------------------------------

/// A design that gates can be built for: it can be executed, everything in it has
/// the width it should have, registers start at zero, and no block writes a
/// register twice.
pub open spec fn synthesizable(d: &Design) -> bool {
    &&& runnable(d)
    &&& d.graph().typed(d.reg_widths(), d.input_widths())
    &&& forall|r: int|
        0 <= r < d.regs@.len() ==> 1 <= (#[trigger] d.regs@[r]).width <= 64 && mask_of(
            d.regs@[r].reset,
            d.regs@[r].width,
        ) == 0
    &&& forall|i: int| 0 <= i < d.blocks@.len() ==> distinct_writes(#[trigger] d.blocks@[i])
    &&& forall|k: int|
        0 <= k < d.outputs@.len() ==> (#[trigger] d.outputs@[k]).1 < d.regs@.len()
}

pub open spec fn distinct_writes(b: BasicBlock) -> bool {
    forall|i: int, j: int|
        0 <= i < j < b.assigns@.len() ==> (#[trigger] b.assigns@[i]).0 != (
        #[trigger] b.assigns@[j]).0
}

/// How many gates a node costs at most.
pub open spec fn node_cost(g: Graph, i: int) -> nat {
    let w = g.widths[i] as nat;
    match g.nodes[i] {
        Node::Input(_) => w,
        Node::Not(_) => w,
        Node::And(..) => 5 * w,
        Node::Or(..) => 5 * w,
        Node::Xor(..) => 5 * w,
        Node::Add(..) => 21 * w,
        Node::Lt(a, _) => 22 * g.width(a) as nat + 1,
        Node::Eq(a, _) => 5 * g.width(a) as nat + 1,
        Node::Mul(..) => 24 * (w * w),
        Node::Shl(..) => 57 * w + 3,
        Node::Shr(..) => 57 * w + 3,
        Node::Mux { .. } => 9 * w,
        Node::Any(_) => 2,
        _ => 0,
    }
}

/// How many gates the first `n` nodes cost at most.
pub open spec fn graph_cost(g: Graph, n: nat) -> nat
    decreases n,
{
    if n == 0 {
        0
    } else {
        graph_cost(g, (n - 1) as nat) + node_cost(g, n - 1)
    }
}

/// The bits of the first `n` registers together.
pub open spec fn reg_base(rw: Seq<u32>, n: int) -> nat
    decreases n,
{
    if n <= 0 {
        0
    } else {
        reg_base(rw, n - 1) + rw[n - 1] as nat
    }
}

/// How many gates updating the first `n` registers costs at most.
pub open spec fn update_cost(rw: Seq<u32>, blocks: nat, n: int) -> nat
    decreases n,
{
    if n <= 0 {
        0
    } else {
        update_cost(rw, blocks, n - 1) + 3 + rw[n - 1] as nat * (17 + 3 * blocks)
    }
}

/// An upper bound on the number of signals that gates for `d` take.
pub open spec fn signal_bound(d: &Design) -> nat {
    let n = d.regs@.len() as int;
    let blocks = d.blocks@.len();
    16 + 24 * blocks + reg_base(d.reg_widths(), n) + update_cost(d.reg_widths(), blocks, n)
        + graph_cost(d.graph(), d.graph().len())
}

// --- what the bits of a node mean ----------------------------------------

/// The register rows show the register values `regs`.
pub open spec fn regs_read(
    gates: Seq<Gate>,
    reg_q: Seq<Vec<Sig>>,
    rw: Seq<u32>,
    e: Env,
    regs: Seq<u64>,
) -> bool {
    &&& regs_fit(rw, regs)
    &&& forall|r: int, b: int|
        0 <= r < rw.len() && 0 <= b < rw[r] ==> sig_value(gates, e, #[trigger] reg_q[r]@[b]) == bit(
            regs[r],
            b,
        )
}

/// Every register has a row of existing signals.
pub open spec fn rows_wf(gates: Seq<Gate>, reg_q: Seq<Vec<Sig>>, rw: Seq<u32>) -> bool {
    &&& reg_q.len() == rw.len()
    &&& forall|r: int|
        0 <= r < rw.len() ==> (#[trigger] reg_q[r])@.len() == rw[r] && row_wf(
            reg_q[r]@,
            gates.len(),
        )
}

/// The signals in `bits` always show the bits of node `n`.
pub open spec fn denotes(
    d: &Design,
    gates: Seq<Gate>,
    reg_q: Seq<Vec<Sig>>,
    n: NodeId,
    bits: Seq<Sig>,
) -> bool {
    &&& bits.len() == d.graph().width(n)
    &&& row_wf(bits, gates.len())
    &&& forall|e: Env, regs: Seq<u64>|
        #![trigger regs_read(gates, reg_q, d.reg_widths(), e, regs)]
        regs_read(gates, reg_q, d.reg_widths(), e, regs) ==> levels(gates, e, bits) == bits_of(
            d.graph().value(regs, e.ins, n),
            bits.len(),
        )
}

spec fn cache_right(
    d: &Design,
    gates: Seq<Gate>,
    reg_q: Seq<Vec<Sig>>,
    cache: Map<NodeId, Vec<Sig>>,
) -> bool {
    forall|n: NodeId| #[trigger]
        cache.contains_key(n) ==> n < d.graph().len() && denotes(d, gates, reg_q, n, cache[n]@)
}

proof fn lemma_regs_read_kept(
    g0: Seq<Gate>,
    g1: Seq<Gate>,
    reg_q: Seq<Vec<Sig>>,
    rw: Seq<u32>,
    e: Env,
    regs: Seq<u64>,
)
    requires
        grown(g0, g1),
        rows_wf(g0, reg_q, rw),
    ensures
        regs_read(g1, reg_q, rw, e, regs) == regs_read(g0, reg_q, rw, e, regs),
{
    assert forall|r: int, b: int| 0 <= r < rw.len() && 0 <= b < rw[r] implies sig_value(
        g1,
        e,
        #[trigger] reg_q[r]@[b],
    ) == sig_value(g0, e, reg_q[r]@[b]) by {
        assert(reg_q[r]@[b] < g0.len());
    }
    if regs_read(g1, reg_q, rw, e, regs) {
        assert forall|r: int, b: int| 0 <= r < rw.len() && 0 <= b < rw[r] implies sig_value(
            g0,
            e,
            #[trigger] reg_q[r]@[b],
        ) == bit(regs[r], b) by {
            assert(sig_value(g1, e, reg_q[r]@[b]) == sig_value(g0, e, reg_q[r]@[b]));
        }
    }
    if regs_read(g0, reg_q, rw, e, regs) {
        assert forall|r: int, b: int| 0 <= r < rw.len() && 0 <= b < rw[r] implies sig_value(
            g1,
            e,
            #[trigger] reg_q[r]@[b],
        ) == bit(regs[r], b) by {
            assert(sig_value(g1, e, reg_q[r]@[b]) == sig_value(g0, e, reg_q[r]@[b]));
        }
    }
}

proof fn lemma_denotes_kept(
    d: &Design,
    g0: Seq<Gate>,
    g1: Seq<Gate>,
    reg_q: Seq<Vec<Sig>>,
    n: NodeId,
    bits: Seq<Sig>,
)
    requires
        grown(g0, g1),
        rows_wf(g0, reg_q, d.reg_widths()),
        denotes(d, g0, reg_q, n, bits),
    ensures
        denotes(d, g1, reg_q, n, bits),
{
    assert forall|e: Env, regs: Seq<u64>|
        #![trigger regs_read(g1, reg_q, d.reg_widths(), e, regs)]
        regs_read(g1, reg_q, d.reg_widths(), e, regs) implies levels(g1, e, bits) == bits_of(
        d.graph().value(regs, e.ins, n),
        bits.len(),
    ) by {
        lemma_regs_read_kept(g0, g1, reg_q, d.reg_widths(), e, regs);
        lemma_levels_kept(g0, g1, e, bits);
    }
}

proof fn lemma_rows_kept(g0: Seq<Gate>, g1: Seq<Gate>, reg_q: Seq<Vec<Sig>>, rw: Seq<u32>)
    requires
        grown(g0, g1),
        rows_wf(g0, reg_q, rw),
    ensures
        rows_wf(g1, reg_q, rw),
{
    assert forall|r: int| 0 <= r < rw.len() implies (#[trigger] reg_q[r])@.len() == rw[r] && row_wf(
        reg_q[r]@,
        g1.len(),
    ) by {
        assert(row_wf(reg_q[r]@, g0.len()));
    }
}

proof fn lemma_cache_kept(
    d: &Design,
    g0: Seq<Gate>,
    g1: Seq<Gate>,
    reg_q: Seq<Vec<Sig>>,
    cache: Map<NodeId, Vec<Sig>>,
)
    requires
        grown(g0, g1),
        rows_wf(g0, reg_q, d.reg_widths()),
        cache_right(d, g0, reg_q, cache),
    ensures
        cache_right(d, g1, reg_q, cache),
        rows_wf(g1, reg_q, d.reg_widths()),
{
    assert forall|n: NodeId| #[trigger] cache.contains_key(n) implies n < d.graph().len()
        && denotes(d, g1, reg_q, n, cache[n]@) by {
        lemma_denotes_kept(d, g0, g1, reg_q, n, cache[n]@);
    }
    lemma_rows_kept(g0, g1, reg_q, d.reg_widths());
}

/// What the nodes in `cache` cost together, among the first `n`.
spec fn spent(g: Graph, cache: Map<NodeId, Vec<Sig>>, n: nat) -> nat
    decreases n,
{
    if n == 0 {
        0
    } else {
        spent(g, cache, (n - 1) as nat) + if cache.contains_key((n - 1) as u32) {
            node_cost(g, n - 1)
        } else {
            0
        }
    }
}

proof fn lemma_spent_bound(g: Graph, cache: Map<NodeId, Vec<Sig>>, n: nat)
    ensures
        spent(g, cache, n) <= graph_cost(g, n),
    decreases n,
{
    if n > 0 {
        lemma_spent_bound(g, cache, (n - 1) as nat);
    }
}

proof fn lemma_spent_insert(
    g: Graph,
    cache: Map<NodeId, Vec<Sig>>,
    id: NodeId,
    v: Vec<Sig>,
    n: nat,
)
    requires
        !cache.contains_key(id),
        n <= u32::MAX + 1,
    ensures
        spent(g, cache.insert(id, v), n) == spent(g, cache, n) + if id < n {
            node_cost(g, id as int)
        } else {
            0
        },
    decreases n,
{
    if n > 0 {
        lemma_spent_insert(g, cache, id, v, (n - 1) as nat);
    }
}

// --- bits of operations --------------------------------------------------

proof fn lemma_word_of_node(x: u64, w: u32, l: Seq<bool>)
    requires
        w <= 64,
        fits(x, w),
        l == bits_of(x, w as nat),
    ensures
        word(l) == x as nat,
{
    lemma_word_of_fitting(x, w);
}

/// A row that stands for a masked word shows its bits.
proof fn lemma_row_shows(l: Seq<bool>, v: u64, w: u32)
    requires
        w <= 64,
        l.len() == w,
        fits(v, w),
        word(l) == v as nat,
    ensures
        l == bits_of(v, w as nat),
{
    lemma_word_of_fitting(v, w);
    lemma_word_injective(l, bits_of(v, w as nat));
}

proof fn lemma_flag_row(l: Seq<bool>, b: bool)
    requires
        l.len() == 1,
        l[0] == b,
    ensures
        l == bits_of(flag(b), 1),
{
    lemma_flag(b);
    assert(l =~= bits_of(flag(b), 1));
}

proof fn lemma_add_row(l: Seq<bool>, c: bool, x: u64, y: u64, w: u32)
    requires
        w <= 64,
        l.len() == w,
        word(l) + weight(c, pow2(w as nat)) == x + y,
    ensures
        l == bits_of(mask_of(((x + y) % 0x1_0000_0000_0000_0000) as u64, w), w as nat),
{
    let s = ((x + y) % 0x1_0000_0000_0000_0000) as u64;
    let v = mask_of(s, w);
    let m = pow2(w as nat);
    lemma_mask_of_wrapped((x + y) as nat, s, w);
    lemma_mask_idempotent(s, w);
    lemma_word_bound(l);
    lemma_pow2_pos(w as nat);
    vstd::arithmetic::div_mod::lemma_small_mod(word(l), m);
    if c {
        vstd::arithmetic::div_mod::lemma_mod_add_multiples_vanish(word(l) as int, m as int);
    }
    lemma_row_shows(l, v, w);
}

proof fn lemma_mul_row(l: Seq<bool>, x: u64, y: u64, w: u32)
    requires
        w <= 64,
        l.len() == w,
        word(l) == (x as nat * y as nat) % pow2(w as nat),
    ensures
        l == bits_of(mask_of(((x * y) % 0x1_0000_0000_0000_0000) as u64, w), w as nat),
{
    assert(x * y >= 0) by (nonlinear_arith)
        requires
            x >= 0,
            y >= 0,
    ;
    let s = ((x * y) % 0x1_0000_0000_0000_0000) as u64;
    lemma_mask_of_wrapped((x * y) as nat, s, w);
    lemma_mask_idempotent(s, w);
    lemma_row_shows(l, mask_of(s, w), w);
}

proof fn lemma_not_row(la: Seq<bool>, l: Seq<bool>, x: u64, w: u32)
    requires
        w <= 64,
        la == bits_of(x, w as nat),
        l.len() == w,
        forall|i: int| 0 <= i < w ==> #[trigger] l[i] == !la[i],
    ensures
        l == bits_of(mask_of(!x, w), w as nat),
{
    assert forall|i: int| 0 <= i < w implies l[i] == bits_of(mask_of(!x, w), w as nat)[i] by {
        lemma_mask_bit(!x, w, i);
        lemma_bit_logic(x, x, i);
    }
    assert(l =~= bits_of(mask_of(!x, w), w as nat));
}

proof fn lemma_logic_row(op: Logic, la: Seq<bool>, lb: Seq<bool>, l: Seq<bool>, x: u64, y: u64, w: u32)
    requires
        w <= 64,
        la == bits_of(x, w as nat),
        lb == bits_of(y, w as nat),
        l.len() == w,
        forall|i: int| 0 <= i < w ==> #[trigger] l[i] == logic(op, la[i], lb[i]),
    ensures
        l == bits_of(
            match op {
                Logic::And => x & y,
                Logic::Or => x | y,
                Logic::Xor => x ^ y,
            },
            w as nat,
        ),
{
    let v = match op {
        Logic::And => x & y,
        Logic::Or => x | y,
        Logic::Xor => x ^ y,
    };
    assert forall|i: int| 0 <= i < w implies l[i] == bits_of(v, w as nat)[i] by {
        lemma_bit_logic(x, y, i);
    }
    assert(l =~= bits_of(v, w as nat));
}

proof fn lemma_shift_row(la: Seq<bool>, l: Seq<bool>, x: u64, s: u64, w: u32, left: bool)
    requires
        1 <= w <= 64,
        fits(x, w),
        la == bits_of(x, w as nat),
        shifted(la, s as nat, left, l),
    ensures
        left ==> l == bits_of(
            if s >= 64 {
                0
            } else {
                mask_of(x << s, w)
            },
            w as nat,
        ),
        !left ==> l == bits_of(
            if s >= 64 {
                0
            } else {
                x >> s
            },
            w as nat,
        ),
{
    lemma_zero_bits(x, w);
    if s >= 64 {
        assert(l =~= bits_of(0, w as nat));
    } else if left {
        assert forall|i: int| 0 <= i < w implies l[i] == bits_of(mask_of(x << s, w), w as nat)[i] by {
            lemma_mask_bit(x << s, w, i);
            lemma_shl_bit(x, s, i);
        }
        assert(l =~= bits_of(mask_of(x << s, w), w as nat));
    } else {
        assert forall|i: int| 0 <= i < w implies l[i] == bits_of(x >> s, w as nat)[i] by {
            lemma_shr_bit(x, s, i);
            if i + s >= w {
                lemma_fits_high_bit(x, w, i + s);
            }
        }
        assert(l =~= bits_of(x >> s, w as nat));
    }
}

proof fn lemma_resize_row(la: Seq<bool>, l: Seq<bool>, x: u64, wa: u32, w: u32)
    requires
        w <= 64,
        wa <= 64,
        fits(x, wa),
        la == bits_of(x, wa as nat),
        l.len() == w,
        forall|i: int| 0 <= i < w ==> #[trigger] l[i] == (i < wa && la[i]),
    ensures
        l == bits_of(mask_of(x, w), w as nat),
{
    assert forall|i: int| 0 <= i < w implies l[i] == bits_of(mask_of(x, w), w as nat)[i] by {
        lemma_mask_bit(x, w, i);
        if i >= wa {
            lemma_fits_high_bit(x, wa, i);
        }
    }
    assert(l =~= bits_of(mask_of(x, w), w as nat));
}

proof fn lemma_repeat_row(c: bool, l: Seq<bool>, w: u32)
    requires
        w <= 64,
        l.len() == w,
        forall|i: int| 0 <= i < w ==> #[trigger] l[i] == c,
    ensures
        l == bits_of(
            if c {
                mask_of(u64::MAX, w)
            } else {
                0
            },
            w as nat,
        ),
{
    let v = if c {
        mask_of(u64::MAX, w)
    } else {
        0
    };
    lemma_small(w);
    lemma_zero_bits(0, w);
    assert forall|i: int| 0 <= i < w implies l[i] == bits_of(v, w as nat)[i] by {
        lemma_all_ones(i);
        lemma_mask_bit(u64::MAX, w, i);
    }
    assert(l =~= bits_of(v, w as nat));
}

// --- the blaster ---------------------------------------------------------

pub struct Blaster<'d> {
    pub d: &'d Design,
    pub net: Netlist,
    /// Bits of each register, LSB first.
    pub reg_q: Vec<Vec<Sig>>,
    pub cache: HashMap<NodeId, Vec<Sig>>,
}

impl<'d> Blaster<'d> {
    /// The invariant: every cached row shows its node, and no more gates were
    /// built than `base` and the cost of the cached nodes.
    spec fn inv(&self, base: nat) -> bool {
        let d = self.d;
        &&& synthesizable(d)
        &&& self.net.wf()
        &&& rows_wf(self.net.gates(), self.reg_q@, d.reg_widths())
        &&& cache_right(d, self.net.gates(), self.reg_q@, self.cache@)
        &&& self.net.gates().len() <= base + spent(d.graph(), self.cache@, d.graph().len())
        &&& base + graph_cost(d.graph(), d.graph().len()) <= u32::MAX
    }

    /// What building a node leaves alone.
    spec fn same_but_gates(&self, later: &Blaster<'d>) -> bool {
        &&& later.d == self.d
        &&& later.reg_q == self.reg_q
        &&& self.net.only_grew(&later.net)
    }

    fn get(&self, n: NodeId) -> (v: Vec<Sig>)
        requires
            self.cache@.contains_key(n),
        ensures
            v@ == self.cache@[n]@,
    {
        let v = self.cache.get(&n).unwrap();
        let r = v.clone();
        assert(r@ =~= v@);
        r
    }

    /// Bits of a word-level node, LSB first, memoised.
    fn node_bits(&mut self, id: NodeId, Ghost(base): Ghost<nat>) -> (bits: Vec<Sig>)
        requires
            old(self).inv(base),
            id < old(self).d.graph().len(),
        ensures
            final(self).inv(base),
            old(self).same_but_gates(final(self)),
            denotes(final(self).d, final(self).net.gates(), final(self).reg_q@, id, bits@),
    {
        proof {
            lemma_grown_refl(self.net.gates());
        }
        if self.cache.contains_key(&id) {
            return self.get(id);
        }
        // Build in topological order so no recursion is needed for deep DAGs.

        let roots: Vec<NodeId> = vec![id];
        let order = self.d.topo_order(roots.as_slice());
        proof {
            assert(roots@[0] == id);
            assert(needed(self.d, roots@, id as int));
            assert(order@.contains(id));
        }
        for i in 0..order.len()
            invariant
                self.inv(base),
                old(self).same_but_gates(self),
                is_topo_order(self.d, roots@, order@),
                forall|j: int| 0 <= j < i ==> self.cache@.contains_key(#[trigger] order@[j]),
        {
            let n: u32 = order[i];
            if !self.cache.contains_key(&n) {
                let ghost g1 = self.net.gates();
                let ghost cache1 = self.cache@;
                proof {
                    assert forall|k: int|
                        0 <= k < node_operands(
                            self.d.graph().node(n),
                        ).len() implies self.cache@.contains_key(
                        #[trigger] node_operands(self.d.graph().node(n))[k],
                    ) by {
                        let op = self.d.spec_operands(order@[i as int] as int)[k];
                        assert(order@.subrange(0, i as int).contains(op));
                        let j = choose|j: int|
                            0 <= j < order@.subrange(0, i as int).len() && order@.subrange(
                                0,
                                i as int,
                            )[j] == op;
                        assert(order@[j] == op);
                    }
                    let size = self.d.graph().len();
                    assert(order@[i as int] < self.d.spec_size());
                    assert(n < size);
                    lemma_spent_insert(self.d.graph(), cache1, n, arbitrary(), size);
                    lemma_spent_bound(
                        self.d.graph(),
                        cache1.insert(n, arbitrary()),
                        size,
                    );
                }
                let bits = self.build_node(n);
                let ghost row = bits;
                proof {
                    lemma_spent_insert(self.d.graph(), cache1, n, row, self.d.graph().len());
                    lemma_cache_kept(self.d, g1, self.net.gates(), self.reg_q@, cache1);
                    lemma_grown_trans(old(self).net.gates(), g1, self.net.gates());
                }
                self.cache.insert(n, bits);
            }
        }
        proof {
            let j = choose|j: int| 0 <= j < order@.len() && order@[j] == id;
            assert(self.cache@.contains_key(order@[j]));
        }
        self.get(id)
    }

    /// Node `n` can be built: its operands are cached, and there is room.
    spec fn ready(&self, n: NodeId) -> bool {
        let g = self.d.graph();
        &&& synthesizable(self.d)
        &&& self.net.wf()
        &&& rows_wf(self.net.gates(), self.reg_q@, self.d.reg_widths())
        &&& cache_right(self.d, self.net.gates(), self.reg_q@, self.cache@)
        &&& n < g.len()
        &&& self.net.room(node_cost(g, n as int))
        &&& forall|k: int|
            0 <= k < node_operands(g.node(n)).len() ==> self.cache@.contains_key(
                #[trigger] node_operands(g.node(n))[k],
            )
    }

    /// `bits` was built for node `n`.
    spec fn built(&self, later: &Blaster<'d>, n: NodeId, bits: Seq<Sig>) -> bool {
        &&& self.same_but_gates(later)
        &&& later.cache == self.cache
        &&& denotes(later.d, later.net.gates(), later.reg_q@, n, bits)
        &&& later.net.gates().len() <= self.net.gates().len() + node_cost(
            self.d.graph(),
            n as int,
        )
    }

    /// What is known of operand `k` of a node that can be built.
    proof fn lemma_operand(&self, n: NodeId, k: int)
        requires
            self.ready(n),
            0 <= k < node_operands(self.d.graph().node(n)).len(),
        ensures
            ({
                let g = self.d.graph();
                let a = node_operands(g.node(n))[k];
                &&& a < n
                &&& self.cache@.contains_key(a)
                &&& self.cache@[a]@.len() == g.width(a)
                &&& 1 <= g.width(a) <= 64
                &&& row_wf(self.cache@[a]@, self.net.gates().len())
                &&& forall|e: Env, regs: Seq<u64>|
                    #![trigger regs_read(self.net.gates(), self.reg_q@, self.d.reg_widths(), e, regs)]
                    regs_read(self.net.gates(), self.reg_q@, self.d.reg_widths(), e, regs) ==> levels(
                        self.net.gates(),
                        e,
                        self.cache@[a]@,
                    ) == bits_of(g.value(regs, e.ins, a), g.width(a) as nat) && fits(
                        g.value(regs, e.ins, a),
                        g.width(a),
                    )
            }),
    {
        let g = self.d.graph();
        let a = node_operands(g.node(n))[k];
        assert(operands_below(g.nodes[n as int], n as int));
        assert(typed_as(g, self.d.reg_widths(), self.d.input_widths(), g.nodes[a as int], g.widths[a as int]));
        assert(denotes(self.d, self.net.gates(), self.reg_q@, a, self.cache@[a]@));
        assert forall|e: Env, regs: Seq<u64>|
            #![trigger regs_read(self.net.gates(), self.reg_q@, self.d.reg_widths(), e, regs)]
            regs_read(self.net.gates(), self.reg_q@, self.d.reg_widths(), e, regs) implies fits(
            g.value(regs, e.ins, a),
            g.width(a),
        ) by {
            lemma_value_fits(g, self.d.reg_widths(), self.d.input_widths(), regs, e.ins, a);
        }
    }

    /// The typing of a node that can be built.
    proof fn lemma_typing(&self, n: NodeId)
        requires
            self.ready(n),
        ensures
            typed_as(
                self.d.graph(),
                self.d.reg_widths(),
                self.d.input_widths(),
                self.d.graph().node(n),
                self.d.graph().width(n),
            ),
            1 <= self.d.graph().width(n) <= 64,
            grown(self.net.gates(), self.net.gates()),
    {
        let g = self.d.graph();
        assert(typed_as(g, self.d.reg_widths(), self.d.input_widths(), g.nodes[n as int], g.widths[n as int]));
        lemma_grown_refl(self.net.gates());
    }

    fn build_const(&mut self, n: NodeId, value: u64, width: u32) -> (bits: Vec<Sig>)
        requires
            old(self).ready(n),
            old(self).d.graph().node(n) == (Node::Const { value, width }),
        ensures
            old(self).built(final(self), n, bits@),
    {
        let ghost g = self.d.graph();
        let ghost w = g.width(n);
        let ghost g0 = self.net.gates();
        let ghost b0 = *self;
        let ghost rw = self.d.reg_widths();
        proof {
            self.lemma_typing(n);
        }
        let size: usize = self.d.width(n) as usize;
        let bits = const_row(&self.net, value, size);
        proof {
            let g1 = self.net.gates();
            assert forall|e: Env, regs: Seq<u64>|
                #![trigger regs_read(g1, self.reg_q@, rw, e, regs)]
                regs_read(g1, self.reg_q@, rw, e, regs) implies levels(g1, e, bits@) == bits_of(
                g.value(regs, e.ins, n),
                bits@.len(),
            ) by {
                lemma_regs_read_kept(g0, g1, self.reg_q@, rw, e, regs);
                lemma_value(g, regs, e.ins, n);
                assert(regs_read(g0, b0.reg_q@, rw, e, regs));
                let l = levels(g1, e, bits@);
                assert(l =~= bits_of(value, w as nat));
            }
        }
        bits
    }

    fn build_reg(&mut self, n: NodeId, r: RegId) -> (bits: Vec<Sig>)
        requires
            old(self).ready(n),
            old(self).d.graph().node(n) == (Node::Reg(r)),
        ensures
            old(self).built(final(self), n, bits@),
    {
        let ghost g = self.d.graph();
        let ghost w = g.width(n);
        let ghost g0 = self.net.gates();
        let ghost b0 = *self;
        let ghost rw = self.d.reg_widths();
        proof {
            self.lemma_typing(n);
        }
        let row = &self.reg_q[r as usize];
        let bits = row.clone();
        assert(bits@ =~= row@);
        assert(row_wf(self.reg_q@[r as int]@, g0.len()));
        proof {
            let g1 = self.net.gates();
            assert forall|e: Env, regs: Seq<u64>|
                #![trigger regs_read(g1, self.reg_q@, rw, e, regs)]
                regs_read(g1, self.reg_q@, rw, e, regs) implies levels(g1, e, bits@) == bits_of(
                g.value(regs, e.ins, n),
                bits@.len(),
            ) by {
                lemma_regs_read_kept(g0, g1, self.reg_q@, rw, e, regs);
                lemma_value(g, regs, e.ins, n);
                assert(regs_read(g0, b0.reg_q@, rw, e, regs));
                let l = levels(g1, e, bits@);
                assert(regs_read(g0, self.reg_q@, rw, e, regs));
                assert forall|b: int| 0 <= b < w implies l[b] == bits_of(regs[r as int], w as nat)[b] by {
                    assert(sig_value(g0, e, self.reg_q@[r as int]@[b]) == bit(regs[r as int], b));
                }
                assert(l =~= bits_of(regs[r as int], w as nat));
            }
        }
        bits
    }

    fn build_input(&mut self, n: NodeId, i: u32) -> (bits: Vec<Sig>)
        requires
            old(self).ready(n),
            old(self).d.graph().node(n) == (Node::Input(i)),
        ensures
            old(self).built(final(self), n, bits@),
    {
        let ghost g = self.d.graph();
        let ghost w = g.width(n);
        let ghost g0 = self.net.gates();
        let ghost b0 = *self;
        let ghost rw = self.d.reg_widths();
        proof {
            self.lemma_typing(n);
        }
        let size: usize = self.d.width(n) as usize;
        let bits = input_row(&mut self.net, i, size);
        proof {
            let g1 = self.net.gates();
            assert forall|e: Env, regs: Seq<u64>|
                #![trigger regs_read(g1, self.reg_q@, rw, e, regs)]
                regs_read(g1, self.reg_q@, rw, e, regs) implies levels(g1, e, bits@) == bits_of(
                g.value(regs, e.ins, n),
                bits@.len(),
            ) by {
                lemma_regs_read_kept(g0, g1, self.reg_q@, rw, e, regs);
                lemma_value(g, regs, e.ins, n);
                assert(regs_read(g0, b0.reg_q@, rw, e, regs));
                let l = levels(g1, e, bits@);
                let raw = port_value(e.ins, i);
                assert forall|b: int| 0 <= b < w implies l[b] == bits_of(mask_of(raw, w), w as nat)[b] by {
                    lemma_mask_bit(raw, w, b);
                }
                assert(l =~= bits_of(mask_of(raw, w), w as nat));
            }
        }
        bits
    }

    fn build_not(&mut self, n: NodeId, a: NodeId) -> (bits: Vec<Sig>)
        requires
            old(self).ready(n),
            old(self).d.graph().node(n) == (Node::Not(a)),
        ensures
            old(self).built(final(self), n, bits@),
    {
        let ghost g = self.d.graph();
        let ghost w = g.width(n);
        let ghost g0 = self.net.gates();
        let ghost b0 = *self;
        let ghost rw = self.d.reg_widths();
        proof {
            self.lemma_typing(n);
            self.lemma_operand(n, 0);
            assert(node_operands(g.node(n))[0] == a);
        }
        let x = self.get(a);
        let bits = not_row(&mut self.net, &x);
        proof {
            let g1 = self.net.gates();
            assert forall|e: Env, regs: Seq<u64>|
                #![trigger regs_read(g1, self.reg_q@, rw, e, regs)]
                regs_read(g1, self.reg_q@, rw, e, regs) implies levels(g1, e, bits@) == bits_of(
                g.value(regs, e.ins, n),
                bits@.len(),
            ) by {
                lemma_regs_read_kept(g0, g1, self.reg_q@, rw, e, regs);
                lemma_value(g, regs, e.ins, n);
                assert(regs_read(g0, b0.reg_q@, rw, e, regs));
                let l = levels(g1, e, bits@);
                lemma_not_row(levels(g0, e, x@), l, g.value(regs, e.ins, a), w);
            }
        }
        bits
    }

    fn build_logic(&mut self, n: NodeId, op: Logic, a: NodeId, b: NodeId) -> (bits: Vec<Sig>)
        requires
            old(self).ready(n),
            old(self).d.graph().node(n) == (match op {
                Logic::And => Node::And(a, b),
                Logic::Or => Node::Or(a, b),
                Logic::Xor => Node::Xor(a, b),
            }),
        ensures
            old(self).built(final(self), n, bits@),
    {
        let ghost g = self.d.graph();
        let ghost w = g.width(n);
        let ghost g0 = self.net.gates();
        let ghost b0 = *self;
        let ghost rw = self.d.reg_widths();
        proof {
            self.lemma_typing(n);
            self.lemma_operand(n, 0);
            self.lemma_operand(n, 1);
            assert(node_operands(g.node(n))[0] == a);
            assert(node_operands(g.node(n))[1] == b);
        }
        let (x, y) = (self.get(a), self.get(b));
        let bits = zip_row(&mut self.net, op, &x, &y);
        proof {
            let g1 = self.net.gates();
            assert forall|e: Env, regs: Seq<u64>|
                #![trigger regs_read(g1, self.reg_q@, rw, e, regs)]
                regs_read(g1, self.reg_q@, rw, e, regs) implies levels(g1, e, bits@) == bits_of(
                g.value(regs, e.ins, n),
                bits@.len(),
            ) by {
                lemma_regs_read_kept(g0, g1, self.reg_q@, rw, e, regs);
                lemma_value(g, regs, e.ins, n);
                assert(regs_read(g0, b0.reg_q@, rw, e, regs));
                let l = levels(g1, e, bits@);
                lemma_logic_row(
                    op,
                    levels(g0, e, x@),
                    levels(g0, e, y@),
                    l,
                    g.value(regs, e.ins, a),
                    g.value(regs, e.ins, b),
                    w,
                );
            }
        }
        bits
    }

    fn build_add(&mut self, n: NodeId, a: NodeId, b: NodeId) -> (bits: Vec<Sig>)
        requires
            old(self).ready(n),
            old(self).d.graph().node(n) == (Node::Add(a, b)),
        ensures
            old(self).built(final(self), n, bits@),
    {
        let ghost g = self.d.graph();
        let ghost w = g.width(n);
        let ghost g0 = self.net.gates();
        let ghost b0 = *self;
        let ghost rw = self.d.reg_widths();
        proof {
            self.lemma_typing(n);
            self.lemma_operand(n, 0);
            self.lemma_operand(n, 1);
            assert(node_operands(g.node(n))[0] == a);
            assert(node_operands(g.node(n))[1] == b);
        }
        let (x, y) = (self.get(a), self.get(b));
        let cin: u32 = self.net.zero();
        let (bits, cout) = ripple_add(&mut self.net, &x, &y, cin);
        proof {
            let g1 = self.net.gates();
            assert forall|e: Env, regs: Seq<u64>|
                #![trigger regs_read(g1, self.reg_q@, rw, e, regs)]
                regs_read(g1, self.reg_q@, rw, e, regs) implies levels(g1, e, bits@) == bits_of(
                g.value(regs, e.ins, n),
                bits@.len(),
            ) by {
                lemma_regs_read_kept(g0, g1, self.reg_q@, rw, e, regs);
                lemma_value(g, regs, e.ins, n);
                assert(regs_read(g0, b0.reg_q@, rw, e, regs));
                let l = levels(g1, e, bits@);
                let xv = g.value(regs, e.ins, a);
                let yv = g.value(regs, e.ins, b);
                lemma_word_of_node(xv, w, levels(g0, e, x@));
                lemma_word_of_node(yv, w, levels(g0, e, y@));
                assert(!sig_value(g0, e, cin));
                lemma_add_row(l, sig_value(g1, e, cout), xv, yv, w);
            }
        }
        bits
    }

    fn build_lt(&mut self, n: NodeId, a: NodeId, b: NodeId) -> (bits: Vec<Sig>)
        requires
            old(self).ready(n),
            old(self).d.graph().node(n) == (Node::Lt(a, b)),
        ensures
            old(self).built(final(self), n, bits@),
    {
        let ghost g = self.d.graph();
        let ghost w = g.width(n);
        let ghost g0 = self.net.gates();
        let ghost b0 = *self;
        let ghost rw = self.d.reg_widths();
        proof {
            self.lemma_typing(n);
            self.lemma_operand(n, 0);
            self.lemma_operand(n, 1);
            assert(node_operands(g.node(n))[0] == a);
            assert(node_operands(g.node(n))[1] == b);
        }
        let (x, y) = (self.get(a), self.get(b));
        let s: u32 = less_than(&mut self.net, &x, &y);
        let bits: Vec<Sig> = vec![s];
        assert(bits@[0] == s);
        proof {
            let g1 = self.net.gates();
            assert forall|e: Env, regs: Seq<u64>|
                #![trigger regs_read(g1, self.reg_q@, rw, e, regs)]
                regs_read(g1, self.reg_q@, rw, e, regs) implies levels(g1, e, bits@) == bits_of(
                g.value(regs, e.ins, n),
                bits@.len(),
            ) by {
                lemma_regs_read_kept(g0, g1, self.reg_q@, rw, e, regs);
                lemma_value(g, regs, e.ins, n);
                assert(regs_read(g0, b0.reg_q@, rw, e, regs));
                let l = levels(g1, e, bits@);
                let xv = g.value(regs, e.ins, a);
                let yv = g.value(regs, e.ins, b);
                lemma_word_of_node(xv, g.width(a), levels(g0, e, x@));
                lemma_word_of_node(yv, g.width(b), levels(g0, e, y@));
                assert(l[0] == sig_value(g1, e, s));
                lemma_flag_row(l, xv < yv);
            }
        }
        bits
    }

    fn build_eq(&mut self, n: NodeId, a: NodeId, b: NodeId) -> (bits: Vec<Sig>)
        requires
            old(self).ready(n),
            old(self).d.graph().node(n) == (Node::Eq(a, b)),
        ensures
            old(self).built(final(self), n, bits@),
    {
        let ghost g = self.d.graph();
        let ghost w = g.width(n);
        let ghost g0 = self.net.gates();
        let ghost b0 = *self;
        let ghost rw = self.d.reg_widths();
        proof {
            self.lemma_typing(n);
            self.lemma_operand(n, 0);
            self.lemma_operand(n, 1);
            assert(node_operands(g.node(n))[0] == a);
            assert(node_operands(g.node(n))[1] == b);
        }
        let (x, y) = (self.get(a), self.get(b));
        let s: u32 = equal_rows(&mut self.net, &x, &y);
        let bits: Vec<Sig> = vec![s];
        assert(bits@[0] == s);
        proof {
            let g1 = self.net.gates();
            assert forall|e: Env, regs: Seq<u64>|
                #![trigger regs_read(g1, self.reg_q@, rw, e, regs)]
                regs_read(g1, self.reg_q@, rw, e, regs) implies levels(g1, e, bits@) == bits_of(
                g.value(regs, e.ins, n),
                bits@.len(),
            ) by {
                lemma_regs_read_kept(g0, g1, self.reg_q@, rw, e, regs);
                lemma_value(g, regs, e.ins, n);
                assert(regs_read(g0, b0.reg_q@, rw, e, regs));
                let l = levels(g1, e, bits@);
                let xv = g.value(regs, e.ins, a);
                let yv = g.value(regs, e.ins, b);
                lemma_word_of_node(xv, g.width(a), levels(g0, e, x@));
                lemma_word_of_node(yv, g.width(b), levels(g0, e, y@));
                assert(l[0] == sig_value(g1, e, s));
                lemma_flag_row(l, xv == yv);
            }
        }
        bits
    }

    fn build_mul(&mut self, n: NodeId, a: NodeId, b: NodeId) -> (bits: Vec<Sig>)
        requires
            old(self).ready(n),
            old(self).d.graph().node(n) == (Node::Mul(a, b)),
        ensures
            old(self).built(final(self), n, bits@),
    {
        let ghost g = self.d.graph();
        let ghost w = g.width(n);
        let ghost g0 = self.net.gates();
        let ghost b0 = *self;
        let ghost rw = self.d.reg_widths();
        proof {
            self.lemma_typing(n);
            self.lemma_operand(n, 0);
            self.lemma_operand(n, 1);
            assert(node_operands(g.node(n))[0] == a);
            assert(node_operands(g.node(n))[1] == b);
        }
        let (x, y) = (self.get(a), self.get(b));
        let bits = array_multiply(&mut self.net, &x, &y, x.len());
        proof {
            let g1 = self.net.gates();
            assert forall|e: Env, regs: Seq<u64>|
                #![trigger regs_read(g1, self.reg_q@, rw, e, regs)]
                regs_read(g1, self.reg_q@, rw, e, regs) implies levels(g1, e, bits@) == bits_of(
                g.value(regs, e.ins, n),
                bits@.len(),
            ) by {
                lemma_regs_read_kept(g0, g1, self.reg_q@, rw, e, regs);
                lemma_value(g, regs, e.ins, n);
                assert(regs_read(g0, b0.reg_q@, rw, e, regs));
                let l = levels(g1, e, bits@);
                let xv = g.value(regs, e.ins, a);
                let yv = g.value(regs, e.ins, b);
                lemma_word_of_node(xv, w, levels(g0, e, x@));
                lemma_word_of_node(yv, w, levels(g0, e, y@));
                lemma_mul_row(l, xv, yv, w);
            }
        }
        bits
    }

    fn build_shift(&mut self, n: NodeId, left: bool, a: NodeId, b: NodeId) -> (bits: Vec<Sig>)
        requires
            old(self).ready(n),
            old(self).d.graph().node(n) == (if left {
                Node::Shl(a, b)
            } else {
                Node::Shr(a, b)
            }),
        ensures
            old(self).built(final(self), n, bits@),
    {
        let ghost g = self.d.graph();
        let ghost w = g.width(n);
        let ghost g0 = self.net.gates();
        let ghost b0 = *self;
        let ghost rw = self.d.reg_widths();
        proof {
            self.lemma_typing(n);
            self.lemma_operand(n, 0);
            self.lemma_operand(n, 1);
            assert(node_operands(g.node(n))[0] == a);
            assert(node_operands(g.node(n))[1] == b);
        }
        let (x, y) = (self.get(a), self.get(b));
        proof {
            lemma_stages_few(x@.len());
            assert(stages_for(x@.len()) * x@.len() <= 6 * x@.len()) by (nonlinear_arith)
                requires
                    stages_for(x@.len()) <= 6,
            ;
            assert(resized(x@, x@.len()) =~= x@);
        }
        let bits = barrel_shift(&mut self.net, &x, &y, x.len(), left);
        proof {
            let g1 = self.net.gates();
            assert forall|e: Env, regs: Seq<u64>|
                #![trigger regs_read(g1, self.reg_q@, rw, e, regs)]
                regs_read(g1, self.reg_q@, rw, e, regs) implies levels(g1, e, bits@) == bits_of(
                g.value(regs, e.ins, n),
                bits@.len(),
            ) by {
                lemma_regs_read_kept(g0, g1, self.reg_q@, rw, e, regs);
                lemma_value(g, regs, e.ins, n);
                assert(regs_read(g0, b0.reg_q@, rw, e, regs));
                let l = levels(g1, e, bits@);
                let xv = g.value(regs, e.ins, a);
                let yv = g.value(regs, e.ins, b);
                lemma_word_of_node(yv, g.width(b), levels(g0, e, y@));
                lemma_shift_row(levels(g0, e, x@), l, xv, yv, w, left);
            }
        }
        bits
    }

    fn build_bit(&mut self, n: NodeId, src: NodeId, which: u32) -> (bits: Vec<Sig>)
        requires
            old(self).ready(n),
            old(self).d.graph().node(n) == (Node::Bit { src, bit: which }),
        ensures
            old(self).built(final(self), n, bits@),
    {
        let ghost g = self.d.graph();
        let ghost w = g.width(n);
        let ghost g0 = self.net.gates();
        let ghost b0 = *self;
        let ghost rw = self.d.reg_widths();
        proof {
            self.lemma_typing(n);
            self.lemma_operand(n, 0);
            assert(node_operands(g.node(n))[0] == src);
        }
        let x = self.get(src);
        let s: u32 = x[which as usize];
        let bits: Vec<Sig> = vec![s];
        assert(bits@[0] == s);
        assert(x@[which as int] < g0.len());
        proof {
            let g1 = self.net.gates();
            assert forall|e: Env, regs: Seq<u64>|
                #![trigger regs_read(g1, self.reg_q@, rw, e, regs)]
                regs_read(g1, self.reg_q@, rw, e, regs) implies levels(g1, e, bits@) == bits_of(
                g.value(regs, e.ins, n),
                bits@.len(),
            ) by {
                lemma_regs_read_kept(g0, g1, self.reg_q@, rw, e, regs);
                lemma_value(g, regs, e.ins, n);
                assert(regs_read(g0, b0.reg_q@, rw, e, regs));
                let l = levels(g1, e, bits@);
                let xv = g.value(regs, e.ins, src);
                lemma_bit_select(xv, which);
                assert(l[0] == levels(g0, e, x@)[which as int]);
                lemma_flag_row(l, bit(xv, which as int));
            }
        }
        bits
    }

    fn build_resize(&mut self, n: NodeId, src: NodeId, width: u32) -> (bits: Vec<Sig>)
        requires
            old(self).ready(n),
            old(self).d.graph().node(n) == (Node::Resize { src, width }),
        ensures
            old(self).built(final(self), n, bits@),
    {
        let ghost g = self.d.graph();
        let ghost w = g.width(n);
        let ghost g0 = self.net.gates();
        let ghost b0 = *self;
        let ghost rw = self.d.reg_widths();
        proof {
            self.lemma_typing(n);
            self.lemma_operand(n, 0);
            assert(node_operands(g.node(n))[0] == src);
        }
        let x = self.get(src);
        let bits = resize_row(&self.net, &x, width as usize);
        proof {
            assert forall|k: int| 0 <= k < bits@.len() implies (#[trigger] bits@[k]) < g0.len() by {
                if k < x@.len() {
                    assert(x@[k] < g0.len());
                }
            }
        }
        proof {
            let g1 = self.net.gates();
            assert forall|e: Env, regs: Seq<u64>|
                #![trigger regs_read(g1, self.reg_q@, rw, e, regs)]
                regs_read(g1, self.reg_q@, rw, e, regs) implies levels(g1, e, bits@) == bits_of(
                g.value(regs, e.ins, n),
                bits@.len(),
            ) by {
                lemma_regs_read_kept(g0, g1, self.reg_q@, rw, e, regs);
                lemma_value(g, regs, e.ins, n);
                assert(regs_read(g0, b0.reg_q@, rw, e, regs));
                let l = levels(g1, e, bits@);
                let xv = g.value(regs, e.ins, src);
                let lx = levels(g0, e, x@);
                assert forall|k: int| 0 <= k < w implies #[trigger] l[k] == (k < g.width(src) && lx[k]) by {
                    assert(!sig_value(g0, e, 1u32));
                }
                lemma_resize_row(lx, l, xv, g.width(src), w);
            }
        }
        bits
    }

    fn build_repeat(&mut self, n: NodeId, src: NodeId, width: u32) -> (bits: Vec<Sig>)
        requires
            old(self).ready(n),
            old(self).d.graph().node(n) == (Node::Repeat { src, width }),
        ensures
            old(self).built(final(self), n, bits@),
    {
        let ghost g = self.d.graph();
        let ghost w = g.width(n);
        let ghost g0 = self.net.gates();
        let ghost b0 = *self;
        let ghost rw = self.d.reg_widths();
        proof {
            self.lemma_typing(n);
            self.lemma_operand(n, 0);
            assert(node_operands(g.node(n))[0] == src);
        }
        let x = self.get(src);
        assert(x@[0] < g0.len());
        let bits = fill(x[0], width as usize);
        proof {
            let g1 = self.net.gates();
            assert forall|e: Env, regs: Seq<u64>|
                #![trigger regs_read(g1, self.reg_q@, rw, e, regs)]
                regs_read(g1, self.reg_q@, rw, e, regs) implies levels(g1, e, bits@) == bits_of(
                g.value(regs, e.ins, n),
                bits@.len(),
            ) by {
                lemma_regs_read_kept(g0, g1, self.reg_q@, rw, e, regs);
                lemma_value(g, regs, e.ins, n);
                assert(regs_read(g0, b0.reg_q@, rw, e, regs));
                let l = levels(g1, e, bits@);
                let xv = g.value(regs, e.ins, src);
                let lx = levels(g0, e, x@);
                assert(lx[0] == bit(xv, 0));
                lemma_low_bit(xv);
                lemma_repeat_row(bit(xv, 0), l, w);
            }
        }
        bits
    }

    fn build_mux(&mut self, n: NodeId, c: NodeId, t: NodeId, f: NodeId) -> (bits: Vec<Sig>)
        requires
            old(self).ready(n),
            old(self).d.graph().node(n) == (Node::Mux { c, t, f }),
        ensures
            old(self).built(final(self), n, bits@),
    {
        let ghost g = self.d.graph();
        let ghost w = g.width(n);
        let ghost g0 = self.net.gates();
        let ghost b0 = *self;
        let ghost rw = self.d.reg_widths();
        proof {
            self.lemma_typing(n);
            self.lemma_operand(n, 0);
            self.lemma_operand(n, 1);
            self.lemma_operand(n, 2);
            assert(node_operands(g.node(n))[0] == c);
            assert(node_operands(g.node(n))[1] == t);
            assert(node_operands(g.node(n))[2] == f);
        }
        let cb = self.get(c);
        assert(cb@[0] < g0.len());
        let (tv, fv) = (self.get(t), self.get(f));
        let bits = mux_row(&mut self.net, cb[0], &tv, &fv);
        proof {
            let g1 = self.net.gates();
            assert forall|e: Env, regs: Seq<u64>|
                #![trigger regs_read(g1, self.reg_q@, rw, e, regs)]
                regs_read(g1, self.reg_q@, rw, e, regs) implies levels(g1, e, bits@) == bits_of(
                g.value(regs, e.ins, n),
                bits@.len(),
            ) by {
                lemma_regs_read_kept(g0, g1, self.reg_q@, rw, e, regs);
                lemma_value(g, regs, e.ins, n);
                assert(regs_read(g0, b0.reg_q@, rw, e, regs));
                let l = levels(g1, e, bits@);
                let cv = g.value(regs, e.ins, c);
                assert(levels(g0, e, cb@)[0] == bit(cv, 0));
                lemma_low_bit(cv);
            }
        }
        bits
    }

    fn build_any(&mut self, n: NodeId, a: NodeId) -> (bits: Vec<Sig>)
        requires
            old(self).ready(n),
            old(self).d.graph().node(n) == (Node::Any(a)),
        ensures
            old(self).built(final(self), n, bits@),
    {
        let ghost g = self.d.graph();
        let ghost w = g.width(n);
        let ghost g0 = self.net.gates();
        let ghost b0 = *self;
        let ghost rw = self.d.reg_widths();
        proof {
            self.lemma_typing(n);
            self.lemma_operand(n, 0);
            assert(node_operands(g.node(n))[0] == a);
        }
        let x = self.get(a);
        let s: u32 = self.net.or_all(x.as_slice());
        let bits: Vec<Sig> = vec![s];
        assert(bits@[0] == s);
        proof {
            let g1 = self.net.gates();
            assert forall|e: Env, regs: Seq<u64>|
                #![trigger regs_read(g1, self.reg_q@, rw, e, regs)]
                regs_read(g1, self.reg_q@, rw, e, regs) implies levels(g1, e, bits@) == bits_of(
                g.value(regs, e.ins, n),
                bits@.len(),
            ) by {
                lemma_regs_read_kept(g0, g1, self.reg_q@, rw, e, regs);
                lemma_value(g, regs, e.ins, n);
                assert(regs_read(g0, b0.reg_q@, rw, e, regs));
                let l = levels(g1, e, bits@);
                let xv = g.value(regs, e.ins, a);
                let lx = levels(g0, e, x@);
                lemma_zero_bits(xv, g.width(a));
                if any_high(g0, e, x@) {
                    let k = choose|k: int| 0 <= k < x@.len() && sig_value(g0, e, #[trigger] x@[k]);
                    assert(lx[k]);
                    assert(bit(xv, k));
                } else {
                    assert forall|k: int| 0 <= k < g.width(a) implies !bit(xv, k) by {
                        assert(!sig_value(g0, e, x@[k]));
                        assert(!lx[k]);
                    }
                }
                assert(l[0] == sig_value(g1, e, s));
                lemma_flag_row(l, xv != 0);
            }
        }
        bits
    }

    /// Build one node whose operands are already cached.
    fn build_node(&mut self, n: NodeId) -> (bits: Vec<Sig>)
        requires
            old(self).ready(n),
        ensures
            old(self).built(final(self), n, bits@),
    {
        match self.d.node(n) {
            Node::Const { value, width } => self.build_const(n, value, width),
            Node::Reg(r) => self.build_reg(n, r),
            Node::Input(i) => self.build_input(n, i),
            Node::Not(a) => self.build_not(n, a),
            Node::And(a, b) => self.build_logic(n, Logic::And, a, b),
            Node::Or(a, b) => self.build_logic(n, Logic::Or, a, b),
            Node::Xor(a, b) => self.build_logic(n, Logic::Xor, a, b),
            Node::Add(a, b) => self.build_add(n, a, b),
            Node::Lt(a, b) => self.build_lt(n, a, b),
            Node::Eq(a, b) => self.build_eq(n, a, b),
            Node::Mul(a, b) => self.build_mul(n, a, b),
            Node::Shl(a, b) => self.build_shift(n, true, a, b),
            Node::Shr(a, b) => self.build_shift(n, false, a, b),
            Node::Bit { src, bit } => self.build_bit(n, src, bit),
            Node::Resize { src, width } => self.build_resize(n, src, width),
            Node::Repeat { src, width } => self.build_repeat(n, src, width),
            Node::Mux { c, t, f } => self.build_mux(n, c, t, f),
            Node::Any(a) => self.build_any(n, a),
        }
    }
}

/// The row of a constant.
fn const_row(net: &Netlist, value: u64, w: usize) -> (r: Vec<Sig>)
    requires
        net.wf(),
        w <= 64,
    ensures
        r@.len() == w,
        row_wf(r@, net.gates().len()),
        forall|e: Env, k: int|
            0 <= k < w ==> #[trigger] levels(net.gates(), e, r@)[k] == bit(value, k),
{
    let mut r: Vec<Sig> = Vec::new();
    for i in 0..w
        invariant
            net.wf(),
            w <= 64,
            r@.len() == i,
            forall|k: int|
                0 <= k < i ==> #[trigger] r@[k] == if bit(value, k) {
                    0u32
                } else {
                    1u32
                },
    {
        r.push(net.constant((value >> (i as u64)) & 1u64 == 1u64));
    }
    r
}

/// The row of an input port.
fn input_row(net: &mut Netlist, port: u32, w: usize) -> (r: Vec<Sig>)
    requires
        old(net).wf(),
        w <= 64,
        old(net).room(w as nat),
    ensures
        old(net).only_grew(final(net)),
        r@.len() == w,
        row_wf(r@, final(net).gates().len()),
        forall|e: Env, k: int|
            0 <= k < w ==> #[trigger] levels(final(net).gates(), e, r@)[k] == bit(
                port_value(e.ins, port),
                k,
            ),
        final(net).gates().len() <= old(net).gates().len() + w,
{
    let ghost g0 = net.gates();
    let mut r: Vec<Sig> = Vec::new();
    proof {
        lemma_grown_refl(g0);
    }
    for i in 0..w
        invariant
            old(net).only_grew(net),
            g0 == old(net).gates(),
            w <= 64,
            old(net).room(w as nat),
            r@.len() == i,
            row_wf(r@, net.gates().len()),
            net.gates().len() <= g0.len() + i,
            forall|e: Env, k: int|
                0 <= k < i ==> #[trigger] levels(net.gates(), e, r@)[k] == bit(
                    port_value(e.ins, port),
                    k,
                ),
    {
        let ghost g1 = net.gates();
        let ghost r1 = r@;
        let s: u32 = net.input(port, i as u32);
        r.push(s);
        proof {
            lemma_grown_trans(g0, g1, net.gates());
            assert forall|e: Env, k: int| 0 <= k < i + 1 implies #[trigger] levels(
                net.gates(),
                e,
                r@,
            )[k] == bit(port_value(e.ins, port), k) by {
                if k < i {
                    assert(levels(g1, e, r1)[k] == bit(port_value(e.ins, port), k));
                    assert(r1[k] < g1.len());
                }
            }
        }
    }
    r
}

/// A row cut or padded with zeros to `w` signals.
fn resize_row(net: &Netlist, s: &Vec<Sig>, w: usize) -> (r: Vec<Sig>)
    ensures
        r@.len() == w,
        forall|k: int|
            0 <= k < w ==> #[trigger] r@[k] == if k < s@.len() {
                s@[k]
            } else {
                1u32
            },
{
    let mut r: Vec<Sig> = Vec::new();
    for i in 0..w
        invariant
            r@.len() == i,
            forall|k: int|
                0 <= k < i ==> #[trigger] r@[k] == if k < s@.len() {
                    s@[k]
                } else {
                    1u32
                },
    {
        let x: u32 = if i < s.len() {
            s[i]
        } else {
            net.zero()
        };
        r.push(x);
    }
    r
}

// --- control: what the flip-flops take over at a clock edge --------------

/// Where the state flip-flops begin: after the registers.
pub open spec fn state_base(d: &Design) -> nat {
    reg_base(d.reg_widths(), d.regs@.len() as int)
}

/// The flip-flop that says that the machine has halted: the last one.
pub open spec fn halt_index(d: &Design) -> nat {
    state_base(d) + d.blocks@.len()
}

/// The flip-flops hold the register values `regs`.
pub open spec fn holds_regs(d: &Design, q: Seq<bool>, regs: Seq<u64>) -> bool {
    &&& regs_fit(d.reg_widths(), regs)
    &&& forall|r: int, b: int|
        #![trigger bit(regs[r], b)]
        0 <= r < d.regs@.len() && 0 <= b < d.regs@[r].width ==> q[reg_base(d.reg_widths(), r) + b]
            == bit(regs[r], b)
}

/// The block that follows block `j`.
pub open spec fn target(d: &Design, regs: Seq<u64>, ins: Seq<u64>, j: int) -> int {
    match d.blocks@[j].term {
        Term::Jump(t) => t as int,
        Term::Branch { cond, then_b, else_b } => if bit(d.graph().value(regs, ins, cond), 0) {
            then_b as int
        } else {
            else_b as int
        },
        Term::Halt => j,
    }
}

/// Is one of the first `k` blocks active, and followed by block `i`?
pub open spec fn arrives(d: &Design, e: Env, regs: Seq<u64>, i: int, k: int) -> bool {
    exists|j: int|
        0 <= j < k && #[trigger] e.q[state_base(d) + j] && target(d, regs, e.ins, j) == i
}

/// Is one of the first `k` blocks active, and the last one of its run?
pub open spec fn halting(d: &Design, e: Env, k: int) -> bool {
    exists|j: int|
        0 <= j < k && #[trigger] e.q[state_base(d) + j] && d.blocks@[j].term is Halt
}

/// The node that a block assigns to register `r`, from assignment `k` on.
pub open spec fn writer_from(assigns: Seq<(RegId, NodeId)>, r: int, k: int) -> Option<NodeId>
    decreases assigns.len() - k,
{
    if k < 0 || k >= assigns.len() {
        None
    } else if assigns[k].0 == r {
        Some(assigns[k].1)
    } else {
        writer_from(assigns, r, k + 1)
    }
}

pub open spec fn writer(d: &Design, j: int, r: int) -> Option<NodeId> {
    writer_from(d.blocks@[j].assigns@, r, 0)
}

/// Is one of the first `k` blocks active, and does it write register `r`?
pub open spec fn written(d: &Design, e: Env, r: int, k: int) -> bool {
    exists|j: int|
        0 <= j < k && #[trigger] e.q[state_base(d) + j] && writer(d, j, r) is Some
}

/// Is one of the first `k` blocks active, and does it set bit `b` of register `r`?
pub open spec fn written_bit(d: &Design, e: Env, regs: Seq<u64>, r: int, b: int, k: int) -> bool {
    exists|j: int|
        0 <= j < k && #[trigger] e.q[state_base(d) + j] && writer(d, j, r) is Some && bit(
            d.graph().value(regs, e.ins, writer(d, j, r)->0),
            b,
        )
}

pub open spec fn next_halt(d: &Design, e: Env) -> bool {
    !e.reset && (e.q[halt_index(d) as int] || halting(d, e, d.blocks@.len() as int))
}

pub open spec fn next_state(d: &Design, e: Env, regs: Seq<u64>, i: int) -> bool {
    if e.reset {
        i == d.entry
    } else if e.q[halt_index(d) as int] {
        e.q[state_base(d) + i]
    } else {
        arrives(d, e, regs, i, d.blocks@.len() as int)
    }
}

pub open spec fn next_bit(d: &Design, e: Env, regs: Seq<u64>, r: int, b: int) -> bool {
    let n = d.blocks@.len() as int;
    let own = e.q[reg_base(d.reg_widths(), r) + b];
    !e.reset && if e.q[halt_index(d) as int] {
        own
    } else {
        written_bit(d, e, regs, r, b, n) || (!written(d, e, r, n) && own)
    }
}

/// The signals of the flip-flop outputs carry them.
spec fn wired(
    d: &Design,
    gates: Seq<Gate>,
    reg_q: Seq<Vec<Sig>>,
    state_q: Seq<Sig>,
    halted_q: Sig,
) -> bool {
    &&& rows_wf(gates, reg_q, d.reg_widths())
    &&& state_q.len() == d.blocks@.len()
    &&& row_wf(state_q, gates.len())
    &&& halted_q < gates.len()
    &&& forall|e: Env, r: int, b: int|
        #![trigger sig_value(gates, e, reg_q[r]@[b])]
        0 <= r < d.regs@.len() && 0 <= b < d.regs@[r].width ==> sig_value(gates, e, reg_q[r]@[b])
            == e.q[reg_base(d.reg_widths(), r) + b]
    &&& forall|e: Env, i: int|
        0 <= i < d.blocks@.len() ==> #[trigger] sig_value(gates, e, state_q[i]) == e.q[state_base(d)
            + i]
    &&& forall|e: Env| #[trigger] sig_value(gates, e, halted_q) == e.q[halt_index(d) as int]
}

proof fn lemma_wired_kept(
    d: &Design,
    g0: Seq<Gate>,
    g1: Seq<Gate>,
    reg_q: Seq<Vec<Sig>>,
    state_q: Seq<Sig>,
    halted_q: Sig,
)
    requires
        grown(g0, g1),
        wired(d, g0, reg_q, state_q, halted_q),
    ensures
        wired(d, g1, reg_q, state_q, halted_q),
{
    lemma_rows_kept(g0, g1, reg_q, d.reg_widths());
    assert forall|e: Env, r: int, b: int|
        #![trigger sig_value(g1, e, reg_q[r]@[b])]
        0 <= r < d.regs@.len() && 0 <= b < d.regs@[r].width implies sig_value(g1, e, reg_q[r]@[b])
        == e.q[reg_base(d.reg_widths(), r) + b] by {
        assert(d.reg_widths()[r] == d.regs@[r].width);
        assert(row_wf(reg_q[r]@, g0.len()));
        assert(reg_q[r]@[b] < g0.len());
        assert(sig_value(g0, e, reg_q[r]@[b]) == e.q[reg_base(d.reg_widths(), r) + b]);
    }
    assert forall|e: Env, i: int| 0 <= i < d.blocks@.len() implies #[trigger] sig_value(
        g1,
        e,
        state_q[i],
    ) == e.q[state_base(d) + i] by {
        assert(state_q[i] < g0.len());
        assert(sig_value(g0, e, state_q[i]) == e.q[state_base(d) + i]);
    }
}

proof fn lemma_reads(
    d: &Design,
    gates: Seq<Gate>,
    reg_q: Seq<Vec<Sig>>,
    state_q: Seq<Sig>,
    halted_q: Sig,
    e: Env,
    regs: Seq<u64>,
)
    requires
        wired(d, gates, reg_q, state_q, halted_q),
        holds_regs(d, e.q, regs),
    ensures
        regs_read(gates, reg_q, d.reg_widths(), e, regs),
{
    let rw = d.reg_widths();
    assert forall|r: int, b: int| 0 <= r < rw.len() && 0 <= b < rw[r] implies sig_value(
        gates,
        e,
        #[trigger] reg_q[r]@[b],
    ) == bit(regs[r], b) by {
        assert(rw[r] == d.regs@[r].width);
        assert(sig_value(gates, e, reg_q[r]@[b]) == e.q[reg_base(rw, r) + b]);
    }
}

proof fn lemma_any_push(gates: Seq<Gate>, e: Env, v: Seq<Sig>, x: Sig)
    ensures
        any_high(gates, e, v.push(x)) == (any_high(gates, e, v) || sig_value(gates, e, x)),
{
    let u = v.push(x);
    if any_high(gates, e, v) {
        let k = choose|k: int| 0 <= k < v.len() && sig_value(gates, e, #[trigger] v[k]);
        assert(u[k] == v[k]);
    }
    if sig_value(gates, e, x) {
        assert(u[v.len() as int] == x);
    }
    if any_high(gates, e, u) {
        let k = choose|k: int| 0 <= k < u.len() && sig_value(gates, e, #[trigger] u[k]);
        if k < v.len() {
            assert(v[k] == u[k]);
        }
    }
}

/// The row of contributions into a block is high where a predecessor goes there.
spec fn gathers(d: &Design, gates: Seq<Gate>, row: Seq<Sig>, i: int, k: int) -> bool {
    &&& row_wf(row, gates.len())
    &&& forall|e: Env, regs: Seq<u64>|
        #![trigger any_high(gates, e, row), holds_regs(d, e.q, regs)]
        holds_regs(d, e.q, regs) ==> any_high(gates, e, row) == arrives(d, e, regs, i, k)
}

proof fn lemma_gathers_kept(d: &Design, g0: Seq<Gate>, g1: Seq<Gate>, row: Seq<Sig>, i: int, k: int)
    requires
        grown(g0, g1),
        gathers(d, g0, row, i, k),
    ensures
        gathers(d, g1, row, i, k),
{
    assert forall|e: Env, regs: Seq<u64>|
        #![trigger any_high(g1, e, row), holds_regs(d, e.q, regs)]
        holds_regs(d, e.q, regs) implies any_high(g1, e, row) == arrives(d, e, regs, i, k) by {
        lemma_levels_kept(g0, g1, e, row);
    }
}

/// One more contribution: `x` is high where block `k` is active and goes to `i`.
proof fn lemma_gathers_push(d: &Design, gates: Seq<Gate>, row: Seq<Sig>, x: Sig, i: int, k: int)
    requires
        gathers(d, gates, row, i, k),
        0 <= k,
        x < gates.len(),
        forall|e: Env, regs: Seq<u64>|
            #![trigger sig_value(gates, e, x), holds_regs(d, e.q, regs)]
            holds_regs(d, e.q, regs) ==> sig_value(gates, e, x) == (e.q[state_base(d) + k]
                && target(d, regs, e.ins, k) == i),
    ensures
        gathers(d, gates, row.push(x), i, k + 1),
{
    assert forall|e: Env, regs: Seq<u64>|
        #![trigger any_high(gates, e, row.push(x)), holds_regs(d, e.q, regs)]
        holds_regs(d, e.q, regs) implies any_high(gates, e, row.push(x)) == arrives(
        d,
        e,
        regs,
        i,
        k + 1,
    ) by {
        lemma_any_push(gates, e, row, x);
        assert(any_high(gates, e, row) == arrives(d, e, regs, i, k));
        assert(sig_value(gates, e, x) == (e.q[state_base(d) + k] && target(d, regs, e.ins, k) == i));
        if arrives(d, e, regs, i, k + 1) {
            let j = choose|j: int|
                0 <= j < k + 1 && #[trigger] e.q[state_base(d) + j] && target(d, regs, e.ins, j)
                    == i;
            if j < k {
                assert(arrives(d, e, regs, i, k));
            }
        }
        if arrives(d, e, regs, i, k) {
            let j = choose|j: int|
                0 <= j < k && #[trigger] e.q[state_base(d) + j] && target(d, regs, e.ins, j) == i;
            assert(e.q[state_base(d) + j]);
        }
    }
}

/// Block `k` does not go to `i`: nothing to add.
proof fn lemma_gathers_skip(d: &Design, gates: Seq<Gate>, row: Seq<Sig>, i: int, k: int)
    requires
        gathers(d, gates, row, i, k),
        0 <= k,
        forall|regs: Seq<u64>, ins: Seq<u64>| target(d, regs, ins, k) != i,
    ensures
        gathers(d, gates, row, i, k + 1),
{
    assert forall|e: Env, regs: Seq<u64>|
        #![trigger any_high(gates, e, row), holds_regs(d, e.q, regs)]
        holds_regs(d, e.q, regs) implies any_high(gates, e, row) == arrives(
        d,
        e,
        regs,
        i,
        k + 1,
    ) by {
        if arrives(d, e, regs, i, k + 1) {
            let j = choose|j: int|
                0 <= j < k + 1 && #[trigger] e.q[state_base(d) + j] && target(d, regs, e.ins, j)
                    == i;
            assert(j < k);
        }
        if arrives(d, e, regs, i, k) {
            let j = choose|j: int|
                0 <= j < k && #[trigger] e.q[state_base(d) + j] && target(d, regs, e.ins, j) == i;
            assert(e.q[state_base(d) + j]);
        }
    }
}

impl<'d> Blaster<'d> {
    /// Ready to build control logic: the invariant, and the outputs of the
    /// flip-flops are wired.
    spec fn control(&self, base: nat, state_q: Seq<Sig>, halted_q: Sig) -> bool {
        &&& self.inv(base)
        &&& wired(self.d, self.net.gates(), self.reg_q@, state_q, halted_q)
    }

    proof fn lemma_room(&self, base: nat, k: nat)
        requires
            self.inv(base),
            base + k + graph_cost(self.d.graph(), self.d.graph().len()) <= u32::MAX,
        ensures
            self.net.room(k),
    {
        lemma_spent_bound(self.d.graph(), self.cache@, self.d.graph().len());
    }

    /// Gates were built outside the cache: the invariant holds with a larger base.
    proof fn lemma_inv_grown(
        &self,
        later: &Blaster<'d>,
        base: nat,
        k: nat,
        state_q: Seq<Sig>,
        halted_q: Sig,
    )
        requires
            self.control(base, state_q, halted_q),
            self.same_but_gates(later),
            later.cache == self.cache,
            later.net.gates().len() <= self.net.gates().len() + k,
            base + k + graph_cost(self.d.graph(), self.d.graph().len()) <= u32::MAX,
        ensures
            later.control(base + k, state_q, halted_q),
    {
        lemma_cache_kept(
            self.d,
            self.net.gates(),
            later.net.gates(),
            self.reg_q@,
            self.cache@,
        );
        lemma_wired_kept(
            self.d,
            self.net.gates(),
            later.net.gates(),
            self.reg_q@,
            state_q,
            halted_q,
        );
    }

    /// `halted` latches on the first cycle spent in a `Halt` block and is only
    /// cleared by reset.
    fn build_halt_flag(
        &mut self,
        state_q: &Vec<Sig>,
        halted_q: Sig,
        Ghost(base): Ghost<nat>,
    ) -> (r: Sig)
        requires
            old(self).control(base, state_q@, halted_q),
            base + 9 + graph_cost(old(self).d.graph(), old(self).d.graph().len()) <= u32::MAX,
        ensures
            final(self).control(base + 9, state_q@, halted_q),
            old(self).same_but_gates(final(self)),
            r < final(self).net.gates().len(),
            forall|e: Env| #[trigger]
                sig_value(final(self).net.gates(), e, r) == next_halt(final(self).d, e),
    {
        let ghost g0 = self.net.gates();
        let ghost d = self.d;
        let ghost b0 = *self;
        let mut in_halt: Vec<Sig> = Vec::new();
        for i in 0..self.d.blocks.len()
            invariant
                *self == b0,
                d == self.d,
                g0 == self.net.gates(),
                wired(d, g0, self.reg_q@, state_q@, halted_q),
                row_wf(in_halt@, g0.len()),
                forall|e: Env| #[trigger] any_high(g0, e, in_halt@) == halting(d, e, i as int),
        {
            let ghost before = in_halt@;
            assert(state_q@[i as int] < g0.len());
            let stop: bool = match self.d.blocks[i].term {
                Term::Halt => true,
                _ => false,
            };
            if stop {
                in_halt.push(state_q[i]);
            }
            proof {
                assert forall|e: Env| #[trigger] any_high(g0, e, in_halt@) == halting(d, e, i + 1) by {
                    lemma_any_push(g0, e, before, state_q@[i as int]);
                    assert(any_high(g0, e, before) == halting(d, e, i as int));
                    assert(sig_value(g0, e, state_q@[i as int]) == e.q[state_base(d) + i]);
                    if halting(d, e, i + 1) {
                        let j = choose|j: int|
                            0 <= j < i + 1 && #[trigger] e.q[state_base(d) + j]
                                && d.blocks@[j].term is Halt;
                        if j < i {
                            assert(halting(d, e, i as int));
                        }
                    }
                    if halting(d, e, i as int) {
                        let j = choose|j: int|
                            0 <= j < i && #[trigger] e.q[state_base(d) + j]
                                && d.blocks@[j].term is Halt;
                        assert(e.q[state_base(d) + j]);
                    }
                }
            }
        }
        proof {
            self.lemma_room(base, 9);
        }
        let reached: u32 = self.net.or_all(in_halt.as_slice());
        let ghost g1 = self.net.gates();
        let sticky: u32 = self.net.or(halted_q, reached);
        let ghost g2 = self.net.gates();
        let reset: u32 = self.net.reset();
        let ghost g3 = self.net.gates();
        let nreset: u32 = self.net.not(reset);
        let ghost g4 = self.net.gates();
        let r: u32 = self.net.and(nreset, sticky);
        proof {
            lemma_grown_trans(g0, g1, g2);
            lemma_grown_trans(g0, g2, g3);
            lemma_grown_trans(g0, g3, g4);
            lemma_grown_trans(g0, g4, self.net.gates());
            b0.lemma_inv_grown(self, base, 9, state_q@, halted_q);
            assert forall|e: Env| #[trigger] sig_value(self.net.gates(), e, r) == next_halt(d, e) by {
                assert(sig_value(g4, e, sticky) == sig_value(g3, e, sticky));
                assert(sig_value(g3, e, sticky) == sig_value(g2, e, sticky));
                assert(sig_value(g1, e, halted_q) == sig_value(g0, e, halted_q));
                assert(any_high(g0, e, in_halt@) == halting(d, e, d.blocks@.len() as int));
            }
        }
        r
    }

    /// Contributions into each block, gathered from every predecessor.
    fn gather(
        &mut self,
        state_q: &Vec<Sig>,
        halted_q: Sig,
        Ghost(base): Ghost<nat>,
    ) -> (into: Vec<Vec<Sig>>)
        requires
            old(self).control(base, state_q@, halted_q),
            base + 7 * old(self).d.blocks@.len() + graph_cost(
                old(self).d.graph(),
                old(self).d.graph().len(),
            ) <= u32::MAX,
        ensures
            final(self).control(base + 7 * old(self).d.blocks@.len(), state_q@, halted_q),
            old(self).same_but_gates(final(self)),
            into@.len() == old(self).d.blocks@.len(),
            forall|i: int|
                0 <= i < into@.len() ==> gathers(
                    final(self).d,
                    final(self).net.gates(),
                    (#[trigger] into@[i])@,
                    i,
                    into@.len() as int,
                ),
    {
        let n: usize = self.d.blocks.len();
        let mut into: Vec<Vec<Sig>> = Vec::new();
        proof {
            lemma_grown_refl(self.net.gates());
        }
        for i in 0..n
            invariant
                into@.len() == i,
                forall|k: int| 0 <= k < i ==> (#[trigger] into@[k])@.len() == 0,
        {
            let empty: Vec<Sig> = Vec::new();
            into.push(empty);
        }
        assert forall|i: int| 0 <= i < n implies gathers(
            self.d,
            self.net.gates(),
            (#[trigger] into@[i])@,
            i,
            0,
        ) by {
            assert(into@[i]@.len() == 0);
        }
        for k in 0..n
            invariant
                n == self.d.blocks@.len(),
                n == old(self).d.blocks@.len(),
                base + 7 * n + graph_cost(self.d.graph(), self.d.graph().len()) <= u32::MAX,
                self.control((base + 7 * k) as nat, state_q@, halted_q),
                old(self).same_but_gates(self),
                into@.len() == n,
                forall|i: int|
                    0 <= i < n ==> gathers(
                        self.d,
                        self.net.gates(),
                        (#[trigger] into@[i])@,
                        i,
                        k as int,
                    ),
        {
            let ghost d = self.d;
            let ghost b0 = *self;
            let ghost g0 = self.net.gates();
            let here: u32 = state_q[k];
            assert(state_q@[k as int] < g0.len());
            assert(block_runnable(d, d.blocks@[k as int]));
            let term = self.d.blocks[k].term;
            match term {
                Term::Jump(t) => {
                    let ghost into0 = into@;
                    into[t as usize].push(here);
                    proof {
                        assert forall|i: int| 0 <= i < n implies gathers(
                            d,
                            g0,
                            (#[trigger] into@[i])@,
                            i,
                            k + 1,
                        ) by {
                            assert(gathers(d, g0, into0[i]@, i, k as int));
                            if i == t {
                                assert(into@[i]@ =~= into0[i]@.push(here));
                                assert forall|e: Env, regs: Seq<u64>|
                                    #![trigger sig_value(g0, e, here), holds_regs(d, e.q, regs)]
                                    holds_regs(d, e.q, regs) implies sig_value(g0, e, here) == (
                                e.q[state_base(d) + k] && target(d, regs, e.ins, k as int) == i) by {
                                    assert(sig_value(g0, e, state_q@[k as int])
                                        == e.q[state_base(d) + k]);
                                }
                                lemma_gathers_push(d, g0, into0[i]@, here, i, k as int);
                            } else {
                                assert(into@[i] == into0[i]);
                                lemma_gathers_skip(d, g0, into0[i]@, i, k as int);
                            }
                        }
                        b0.lemma_inv_grown(
                            self,
                            (base + 7 * k) as nat,
                            7,
                            state_q@,
                            halted_q,
                        );
                    }
                },
                Term::Branch { cond, then_b, else_b } => {
                    let row = self.node_bits(cond, Ghost((base + 7 * k) as nat));
                    let ghost g1 = self.net.gates();
                    let ghost b1 = *self;
                    proof {
                        let g = d.graph();
                        assert(typed_as(
                            g,
                            d.reg_widths(),
                            d.input_widths(),
                            g.nodes[cond as int],
                            g.widths[cond as int],
                        ));
                        lemma_wired_kept(d, g0, g1, self.reg_q@, state_q@, halted_q);
                        self.lemma_room((base + 7 * k) as nat, 7);
                    }
                    let c: u32 = row[0];
                    assert(row@[0] < g1.len());
                    let taken: u32 = self.net.and(here, c);
                    let ghost g2 = self.net.gates();
                    let nc: u32 = self.net.not(c);
                    let ghost g3 = self.net.gates();
                    let not_taken: u32 = self.net.and(here, nc);
                    let ghost g4 = self.net.gates();
                    let ghost into0 = into@;
                    into[then_b as usize].push(taken);
                    let ghost into1 = into@;
                    into[else_b as usize].push(not_taken);
                    proof {
                        lemma_grown_trans(g1, g2, g3);
                        lemma_grown_trans(g1, g3, g4);
                        lemma_grown_trans(g2, g3, g4);
                        lemma_grown_trans(g0, g1, g4);
                        lemma_grown_trans(old(self).net.gates(), g0, g1);
                        lemma_grown_trans(old(self).net.gates(), g1, g4);
                        b1.lemma_inv_grown(
                            self,
                            (base + 7 * k) as nat,
                            7,
                            state_q@,
                            halted_q,
                        );
                        assert forall|e: Env, regs: Seq<u64>|
                            #![trigger sig_value(g4, e, taken), holds_regs(d, e.q, regs)]
                            #![trigger sig_value(g4, e, not_taken), holds_regs(d, e.q, regs)]
                            holds_regs(d, e.q, regs) implies sig_value(g4, e, taken) == (
                        e.q[state_base(d) + k] && bit(d.graph().value(regs, e.ins, cond), 0))
                            && sig_value(g4, e, not_taken) == (e.q[state_base(d) + k] && !bit(
                            d.graph().value(regs, e.ins, cond),
                            0,
                        )) by {
                            lemma_reads(d, g1, self.reg_q@, state_q@, halted_q, e, regs);
                            assert(levels(g1, e, row@)[0] == bit(
                                d.graph().value(regs, e.ins, cond),
                                0,
                            ));
                            assert(sig_value(g4, e, taken) == sig_value(g2, e, taken));
                            assert(sig_value(g3, e, here) == sig_value(g1, e, here));
                            assert(sig_value(g2, e, c) == sig_value(g1, e, c));
                            assert(sig_value(g1, e, state_q@[k as int]) == e.q[state_base(d) + k]);
                        }
                        assert forall|i: int| 0 <= i < n implies gathers(
                            d,
                            g4,
                            (#[trigger] into@[i])@,
                            i,
                            k + 1,
                        ) by {
                            assert(gathers(d, g0, into0[i]@, i, k as int));
                            lemma_gathers_kept(d, g0, g4, into0[i]@, i, k as int);
                            lemma_gathers_branch(
                                d,
                                g4,
                                into0[i]@,
                                taken,
                                not_taken,
                                cond,
                                then_b,
                                else_b,
                                i,
                                k as int,
                                into@[i]@,
                            );
                        }
                    }
                },
                // A halted machine parks in place until reset.
                Term::Halt => {
                    let ghost into0 = into@;
                    into[k].push(here);
                    proof {
                        assert forall|i: int| 0 <= i < n implies gathers(
                            d,
                            g0,
                            (#[trigger] into@[i])@,
                            i,
                            k + 1,
                        ) by {
                            assert(gathers(d, g0, into0[i]@, i, k as int));
                            if i == k {
                                assert(into@[i]@ =~= into0[i]@.push(here));
                                assert forall|e: Env, regs: Seq<u64>|
                                    #![trigger sig_value(g0, e, here), holds_regs(d, e.q, regs)]
                                    holds_regs(d, e.q, regs) implies sig_value(g0, e, here) == (
                                e.q[state_base(d) + k] && target(d, regs, e.ins, k as int) == i) by {
                                    assert(sig_value(g0, e, state_q@[k as int])
                                        == e.q[state_base(d) + k]);
                                }
                                lemma_gathers_push(d, g0, into0[i]@, here, i, k as int);
                            } else {
                                assert(into@[i] == into0[i]);
                                lemma_gathers_skip(d, g0, into0[i]@, i, k as int);
                            }
                        }
                        b0.lemma_inv_grown(
                            self,
                            (base + 7 * k) as nat,
                            7,
                            state_q@,
                            halted_q,
                        );
                    }
                },
            }
            assert(base + 7 * k + 7 == base + 7 * (k + 1));
        }
        into
    }

    /// What each state flip-flop takes over.
    fn build_next_state(
        &mut self,
        state_q: &Vec<Sig>,
        halted_q: Sig,
        Ghost(base): Ghost<nat>,
    ) -> (ds: Vec<Sig>)
        requires
            old(self).control(base, state_q@, halted_q),
            base + 23 * old(self).d.blocks@.len() + 2 + graph_cost(
                old(self).d.graph(),
                old(self).d.graph().len(),
            ) <= u32::MAX,
        ensures
            final(self).control(base + 23 * old(self).d.blocks@.len() + 2, state_q@, halted_q),
            old(self).same_but_gates(final(self)),
            ds@.len() == old(self).d.blocks@.len(),
            row_wf(ds@, final(self).net.gates().len()),
            forall|e: Env, regs: Seq<u64>, i: int|
                #![trigger sig_value(final(self).net.gates(), e, ds@[i]), holds_regs(old(self).d, e.q, regs)]
                0 <= i < ds@.len() && holds_regs(old(self).d, e.q, regs) ==> sig_value(
                    final(self).net.gates(),
                    e,
                    ds@[i],
                ) == next_state(old(self).d, e, regs, i),
    {
        let n: usize = self.d.blocks.len();
        let ghost d = self.d;
        let into = self.gather(state_q, halted_q, Ghost(base));
        let ghost b1 = *self;
        let ghost g1 = self.net.gates();
        let ghost base1 = (base + 7 * n) as nat;
        proof {
            self.lemma_room(base1, 2);
        }
        let reset: u32 = self.net.reset();
        let ghost g2 = self.net.gates();
        let nreset: u32 = self.net.not(reset);
        let ghost g3 = self.net.gates();
        proof {
            lemma_grown_trans(g1, g2, g3);
            lemma_grown_trans(old(self).net.gates(), g1, g3);
            b1.lemma_inv_grown(self, base1, 2, state_q@, halted_q);
            assert forall|e: Env| #[trigger] sig_value(g3, e, reset) == e.reset by {
                assert(sig_value(g2, e, reset) == e.reset);
            }
            lemma_grown_refl(g3);
        }
        let ghost base2 = base1 + 2;
        let mut ds: Vec<Sig> = Vec::new();
        for i in 0..n
            invariant
                n == d.blocks@.len(),
                d == self.d,
                d == old(self).d,
                base2 + 16 * n + graph_cost(self.d.graph(), self.d.graph().len()) <= u32::MAX,
                self.control((base2 + 16 * i) as nat, state_q@, halted_q),
                old(self).same_but_gates(self),
                grown(g1, self.net.gates()),
                grown(g3, self.net.gates()),
                reset < g3.len(),
                nreset < g3.len(),
                forall|e: Env| #[trigger] sig_value(g3, e, reset) == e.reset,
                forall|e: Env| #[trigger] sig_value(g3, e, nreset) == !e.reset,
                into@.len() == n,
                forall|k: int|
                    0 <= k < n ==> gathers(d, g1, (#[trigger] into@[k])@, k, n as int),
                ds@.len() == i,
                row_wf(ds@, self.net.gates().len()),
                forall|e: Env, regs: Seq<u64>, k: int|
                    #![trigger sig_value(self.net.gates(), e, ds@[k]), holds_regs(d, e.q, regs)]
                    0 <= k < i && holds_regs(d, e.q, regs) ==> sig_value(
                        self.net.gates(),
                        e,
                        ds@[k],
                    ) == next_state(d, e, regs, k),
        {
            let ghost b4 = *self;
            let ghost g4 = self.net.gates();
            let ghost ds0 = ds@;
            proof {
                self.lemma_room((base2 + 16 * i) as nat, 16);
                assert(gathers(d, g1, into@[i as int]@, i as int, n as int));
                lemma_gathers_kept(d, g1, g4, into@[i as int]@, i as int, n as int);
            }
            let normal: u32 = self.net.or_all(into[i].as_slice());
            let ghost g5 = self.net.gates();
            // Once halted the state vector freezes, so the halt block's
            // assignments run exactly once.
            let here: u32 = state_q[i];
            assert(state_q@[i as int] < g4.len());
            let frozen: u32 = self.net.mux(halted_q, here, normal);
            let ghost g6 = self.net.gates();
            let held: u32 = self.net.and(nreset, frozen);
            let ghost g7 = self.net.gates();
            // Reset forces the one-hot vector to the entry state.
            proof {
                lemma_grown_trans(g3, g4, g5);
                lemma_grown_trans(g3, g5, g6);
                lemma_grown_trans(g3, g6, g7);
                lemma_grown_trans(g4, g5, g6);
                lemma_grown_trans(g4, g6, g7);
            }
            let next: u32 = if i as u32 == self.d.entry {
                self.net.or(reset, held)
            } else {
                proof {
                    lemma_grown_refl(g7);
                }
                held
            };
            let ghost g8 = self.net.gates();
            proof {
                lemma_grown_trans(g3, g7, g8);
                lemma_grown_trans(g4, g7, g8);
                lemma_grown_trans(old(self).net.gates(), g4, g8);
                lemma_grown_trans(g1, g4, g8);
                b4.lemma_inv_grown(self, (base2 + 16 * i) as nat, 16, state_q@, halted_q);
                assert(base2 + 16 * i + 16 == base2 + 16 * (i + 1));
                assert forall|e: Env, regs: Seq<u64>|
                    #![trigger sig_value(g8, e, next), holds_regs(d, e.q, regs)]
                    holds_regs(d, e.q, regs) implies sig_value(g8, e, next) == next_state(
                    d,
                    e,
                    regs,
                    i as int,
                ) by {
                    assert(any_high(g4, e, into@[i as int]@) == arrives(
                        d,
                        e,
                        regs,
                        i as int,
                        n as int,
                    ));
                    assert(sig_value(g5, e, normal) == arrives(d, e, regs, i as int, n as int));
                    assert(sig_value(g5, e, halted_q) == sig_value(g4, e, halted_q));
                    assert(sig_value(g4, e, halted_q) == e.q[halt_index(d) as int]);
                    assert(sig_value(g5, e, here) == sig_value(g4, e, here));
                    assert(sig_value(g4, e, state_q@[i as int]) == e.q[state_base(d) + i]);
                    assert(sig_value(g6, e, nreset) == sig_value(g3, e, nreset));
                    assert(sig_value(g7, e, reset) == sig_value(g3, e, reset));
                }
            }
            ds.push(next);
            proof {
                assert forall|e: Env, regs: Seq<u64>, k: int|
                    #![trigger sig_value(g8, e, ds@[k]), holds_regs(d, e.q, regs)]
                    0 <= k < i + 1 && holds_regs(d, e.q, regs) implies sig_value(g8, e, ds@[k])
                    == next_state(d, e, regs, k) by {
                    if k < i {
                        assert(ds@[k] == ds0[k]);
                        assert(ds0[k] < g4.len());
                        assert(sig_value(g4, e, ds0[k]) == next_state(d, e, regs, k));
                        assert(sig_value(g8, e, ds0[k]) == sig_value(g4, e, ds0[k]));
                    } else {
                        assert(sig_value(g8, e, next) == next_state(d, e, regs, k));
                    }
                }
            }
        }
        assert(base2 + 16 * n == base + 23 * n + 2);
        ds
    }
}

/// Both contributions of a branch: the row of block `i` gets what is due to it.
proof fn lemma_gathers_branch(
    d: &Design,
    gates: Seq<Gate>,
    row: Seq<Sig>,
    taken: Sig,
    not_taken: Sig,
    cond: NodeId,
    then_b: u32,
    else_b: u32,
    i: int,
    k: int,
    after: Seq<Sig>,
)
    requires
        gathers(d, gates, row, i, k),
        0 <= k < d.blocks@.len(),
        d.blocks@[k].term == (Term::Branch { cond, then_b, else_b }),
        taken < gates.len(),
        not_taken < gates.len(),
        forall|e: Env, regs: Seq<u64>|
            #![trigger sig_value(gates, e, taken), holds_regs(d, e.q, regs)]
            #![trigger sig_value(gates, e, not_taken), holds_regs(d, e.q, regs)]
            holds_regs(d, e.q, regs) ==> sig_value(gates, e, taken) == (e.q[state_base(d) + k]
                && bit(d.graph().value(regs, e.ins, cond), 0)) && sig_value(gates, e, not_taken)
                == (e.q[state_base(d) + k] && !bit(d.graph().value(regs, e.ins, cond), 0)),
        after == {
            let a = if i == then_b {
                row.push(taken)
            } else {
                row
            };
            if i == else_b {
                a.push(not_taken)
            } else {
                a
            }
        },
    ensures
        gathers(d, gates, after, i, k + 1),
{
    let a = if i == then_b {
        row.push(taken)
    } else {
        row
    };
    assert forall|e: Env, regs: Seq<u64>|
        #![trigger any_high(gates, e, after), holds_regs(d, e.q, regs)]
        holds_regs(d, e.q, regs) implies any_high(gates, e, after) == arrives(
        d,
        e,
        regs,
        i,
        k + 1,
    ) by {
        lemma_any_push(gates, e, row, taken);
        lemma_any_push(gates, e, a, not_taken);
        assert(any_high(gates, e, row) == arrives(d, e, regs, i, k));
        assert(sig_value(gates, e, taken) == (e.q[state_base(d) + k] && bit(
            d.graph().value(regs, e.ins, cond),
            0,
        )));
        if arrives(d, e, regs, i, k + 1) {
            let j = choose|j: int|
                0 <= j < k + 1 && #[trigger] e.q[state_base(d) + j] && target(d, regs, e.ins, j)
                    == i;
            if j < k {
                assert(arrives(d, e, regs, i, k));
            }
        }
        if arrives(d, e, regs, i, k) {
            let j = choose|j: int|
                0 <= j < k && #[trigger] e.q[state_base(d) + j] && target(d, regs, e.ins, j) == i;
            assert(e.q[state_base(d) + j]);
        }
        if e.q[state_base(d) + k] && target(d, regs, e.ins, k) == i {
            assert(arrives(d, e, regs, i, k + 1));
        }
    }
    assert(row_wf(after, gates.len()));
}

// --- register updates ----------------------------------------------------

/// The blocks that write register `r`, with the node they write.
spec fn is_writers(d: &Design, r: int, ws: Seq<(usize, NodeId)>) -> bool {
    &&& forall|k: int|
        0 <= k < ws.len() ==> (#[trigger] ws[k]).0 < d.blocks@.len() && writer(
            d,
            ws[k].0 as int,
            r,
        ) == Some(ws[k].1) && ws[k].1 < d.graph().len()
    &&& forall|j: int|
        0 <= j < d.blocks@.len() && #[trigger] writer(d, j, r) is Some ==> exists|k: int|
            0 <= k < ws.len() && (#[trigger] ws[k]).0 == j
    &&& ws.len() <= d.blocks@.len()
}

/// Is one of the first `k` writers active and does it set bit `b`?
spec fn sets_bit(
    d: &Design,
    e: Env,
    regs: Seq<u64>,
    ws: Seq<(usize, NodeId)>,
    b: int,
    k: int,
) -> bool {
    exists|j: int|
        0 <= j < k && e.q[state_base(d) + (#[trigger] ws[j]).0] && bit(
            d.graph().value(regs, e.ins, ws[j].1),
            b,
        )
}

proof fn lemma_sets_bit(
    d: &Design,
    e: Env,
    regs: Seq<u64>,
    ws: Seq<(usize, NodeId)>,
    r: int,
    b: int,
)
    requires
        is_writers(d, r, ws),
    ensures
        sets_bit(d, e, regs, ws, b, ws.len() as int) == written_bit(
            d,
            e,
            regs,
            r,
            b,
            d.blocks@.len() as int,
        ),
{
    let n = d.blocks@.len() as int;
    if sets_bit(d, e, regs, ws, b, ws.len() as int) {
        let j = choose|j: int|
            0 <= j < ws.len() && e.q[state_base(d) + (#[trigger] ws[j]).0] && bit(
                d.graph().value(regs, e.ins, ws[j].1),
                b,
            );
        assert(e.q[state_base(d) + ws[j].0 as int]);
    }
    if written_bit(d, e, regs, r, b, n) {
        let j = choose|j: int|
            0 <= j < n && #[trigger] e.q[state_base(d) + j] && writer(d, j, r) is Some && bit(
                d.graph().value(regs, e.ins, writer(d, j, r)->0),
                b,
            );
        let k = choose|k: int| 0 <= k < ws.len() && (#[trigger] ws[k]).0 == j;
        assert(writer(d, ws[k].0 as int, r) == Some(ws[k].1));
    }
}

fn first_write(assigns: &Vec<(RegId, NodeId)>, r: usize) -> (w: Option<NodeId>)
    ensures
        w == writer_from(assigns@, r as int, 0),
        w is Some ==> exists|k: int|
            0 <= k < assigns@.len() && (#[trigger] assigns@[k]).0 == r && assigns@[k].1 == w->0,
{
    let mut k: usize = 0;
    while k < assigns.len()
        invariant
            k <= assigns@.len(),
            writer_from(assigns@, r as int, 0) == writer_from(assigns@, r as int, k as int),
        decreases assigns@.len() - k,
    {
        if assigns[k].0 as usize == r {
            assert(assigns@[k as int].0 == r);
            return Some(assigns[k].1);
        }
        k = k + 1;
    }
    None
}

impl<'d> Blaster<'d> {
    fn writers(&self, r: usize) -> (ws: Vec<(usize, NodeId)>)
        requires
            runnable(self.d),
        ensures
            is_writers(self.d, r as int, ws@),
    {
        let mut ws: Vec<(usize, NodeId)> = Vec::new();
        for i in 0..self.d.blocks.len()
            invariant
                runnable(self.d),
                ws@.len() <= i,
                forall|k: int|
                    0 <= k < ws@.len() ==> (#[trigger] ws@[k]).0 < i && writer(
                        self.d,
                        ws@[k].0 as int,
                        r as int,
                    ) == Some(ws@[k].1) && ws@[k].1 < self.d.graph().len(),
                forall|j: int|
                    0 <= j < i && #[trigger] writer(self.d, j, r as int) is Some ==> exists|k: int|
                        0 <= k < ws@.len() && (#[trigger] ws@[k]).0 == j,
        {
            let ghost ws0 = ws@;
            assert(block_runnable(self.d, self.d.blocks@[i as int]));
            if let Some(v) = first_write(&self.d.blocks[i].assigns, r) {
                ws.push((i, v));
                assert(ws@[ws0.len() as int].0 == i);
            }
            proof {
                assert forall|j: int|
                    0 <= j < i + 1 && #[trigger] writer(
                        self.d,
                        j,
                        r as int,
                    ) is Some implies exists|k: int|
                    0 <= k < ws@.len() && (#[trigger] ws@[k]).0 == j by {
                    if j < i {
                        let k = choose|k: int| 0 <= k < ws0.len() && (#[trigger] ws0[k]).0 == j;
                        assert(ws@[k].0 == j);
                    }
                }
            }
        }
        ws
    }

    /// What one bit of a register takes over at the clock edge.
    fn register_bit(
        &mut self,
        state_q: &Vec<Sig>,
        halted_q: Sig,
        nreset: Sig,
        no_write: Sig,
        ws: &Vec<(usize, NodeId)>,
        values: &Vec<Vec<Sig>>,
        r: usize,
        b: usize,
        Ghost(base): Ghost<nat>,
    ) -> (dsig: Sig)
        requires
            old(self).control(base, state_q@, halted_q),
            r < old(self).d.regs@.len(),
            b < old(self).d.regs@[r as int].width,
            is_writers(old(self).d, r as int, ws@),
            values@.len() == ws@.len(),
            forall|k: int|
                0 <= k < ws@.len() ==> denotes(
                    old(self).d,
                    old(self).net.gates(),
                    old(self).reg_q@,
                    ws@[k].1,
                    (#[trigger] values@[k])@,
                ),
            nreset < old(self).net.gates().len(),
            no_write < old(self).net.gates().len(),
            forall|e: Env| #[trigger] sig_value(old(self).net.gates(), e, nreset) == !e.reset,
            forall|e: Env| #[trigger]
                sig_value(old(self).net.gates(), e, no_write) == !written(
                    old(self).d,
                    e,
                    r as int,
                    old(self).d.blocks@.len() as int,
                ),
            base + 17 + 3 * old(self).d.blocks@.len() + graph_cost(
                old(self).d.graph(),
                old(self).d.graph().len(),
            ) <= u32::MAX,
        ensures
            final(self).control(
                base + 17 + 3 * old(self).d.blocks@.len(),
                state_q@,
                halted_q,
            ),
            old(self).same_but_gates(final(self)),
            final(self).cache == old(self).cache,
            dsig < final(self).net.gates().len(),
            forall|e: Env, regs: Seq<u64>|
                #![trigger sig_value(final(self).net.gates(), e, dsig), holds_regs(old(self).d, e.q, regs)]
                holds_regs(old(self).d, e.q, regs) ==> sig_value(
                    final(self).net.gates(),
                    e,
                    dsig,
                ) == next_bit(old(self).d, e, regs, r as int, b as int),
    {
        let ghost d = self.d;
        let ghost b0 = *self;
        let ghost g0 = self.net.gates();
        let ghost n = d.blocks@.len();
        proof {
            self.lemma_room(base, 17 + 3 * n);
            lemma_grown_refl(g0);
        }
        let mut terms: Vec<Sig> = Vec::new();
        for w in 0..ws.len()
            invariant
                d == self.d,
                n == d.blocks@.len(),
                b0.same_but_gates(self),
                b0.cache == self.cache,
                g0 == b0.net.gates(),
                b0.control(base, state_q@, halted_q),
                g0.len() + 17 + 3 * n <= u32::MAX,
                self.net.gates().len() <= g0.len() + 3 * w,
                is_writers(d, r as int, ws@),
                values@.len() == ws@.len(),
                forall|k: int|
                    0 <= k < ws@.len() ==> denotes(
                        d,
                        g0,
                        b0.reg_q@,
                        ws@[k].1,
                        (#[trigger] values@[k])@,
                    ),
                row_wf(terms@, self.net.gates().len()),
                forall|e: Env, regs: Seq<u64>|
                    #![trigger any_high(self.net.gates(), e, terms@), holds_regs(d, e.q, regs)]
                    holds_regs(d, e.q, regs) ==> any_high(self.net.gates(), e, terms@) == sets_bit(
                        d,
                        e,
                        regs,
                        ws@,
                        b as int,
                        w as int,
                    ),
        {
            let ghost g1 = self.net.gates();
            let ghost terms1 = terms@;
            let (i, v) = ws[w];
            assert(ws@[w as int] == (i, v));
            assert(denotes(d, g0, b0.reg_q@, ws@[w as int].1, values@[w as int]@));
            let x: u32 = if b < values[w].len() {
                assert(values@[w as int]@[b as int] < g0.len());
                values[w][b]
            } else {
                self.net.zero()
            };
            assert(state_q@[i as int] < g0.len());
            let t: u32 = self.net.and(state_q[i], x);
            terms.push(t);
            let ghost g2 = self.net.gates();
            proof {
                lemma_grown_trans(g0, g1, g2);
                assert forall|e: Env, regs: Seq<u64>|
                    #![trigger any_high(g2, e, terms@), holds_regs(d, e.q, regs)]
                    holds_regs(d, e.q, regs) implies any_high(g2, e, terms@) == sets_bit(
                    d,
                    e,
                    regs,
                    ws@,
                    b as int,
                    w + 1,
                ) by {
                    lemma_any_push(g2, e, terms1, t);
                    lemma_levels_kept(g1, g2, e, terms1);
                    assert(any_high(g1, e, terms1) == sets_bit(
                        d,
                        e,
                        regs,
                        ws@,
                        b as int,
                        w as int,
                    ));
                    lemma_reads(d, g0, b0.reg_q@, state_q@, halted_q, e, regs);
                    let val = d.graph().value(regs, e.ins, v);
                    lemma_value_fits(
                        d.graph(),
                        d.reg_widths(),
                        d.input_widths(),
                        regs,
                        e.ins,
                        v,
                    );
                    assert(typed_as(
                        d.graph(),
                        d.reg_widths(),
                        d.input_widths(),
                        d.graph().nodes[v as int],
                        d.graph().widths[v as int],
                    ));
                    assert(sig_value(g1, e, x) == bit(val, b as int)) by {
                        if b < values@[w as int]@.len() {
                            assert(levels(g0, e, values@[w as int]@)[b as int] == bit(
                                val,
                                b as int,
                            ));
                        } else {
                            lemma_fits_high_bit(val, d.graph().width(v), b as int);
                            assert(!sig_value(g1, e, 1u32));
                        }
                    }
                    assert(sig_value(g1, e, state_q@[i as int]) == sig_value(
                        g0,
                        e,
                        state_q@[i as int],
                    ));
                    assert(sig_value(g0, e, state_q@[i as int]) == e.q[state_base(d) + i]);
                    assert(sig_value(g2, e, t) == (e.q[state_base(d) + i] && bit(val, b as int)));
                    if sets_bit(d, e, regs, ws@, b as int, w + 1) {
                        let j = choose|j: int|
                            0 <= j < w + 1 && e.q[state_base(d) + (#[trigger] ws@[j]).0] && bit(
                                d.graph().value(regs, e.ins, ws@[j].1),
                                b as int,
                            );
                        if j < w {
                            assert(sets_bit(d, e, regs, ws@, b as int, w as int));
                        }
                    }
                    if sets_bit(d, e, regs, ws@, b as int, w as int) {
                        let j = choose|j: int|
                            0 <= j < w && e.q[state_base(d) + (#[trigger] ws@[j]).0] && bit(
                                d.graph().value(regs, e.ins, ws@[j].1),
                                b as int,
                            );
                        assert(e.q[state_base(d) + ws@[j].0]);
                    }
                    if sig_value(g2, e, t) {
                        assert(e.q[state_base(d) + ws@[w as int].0]);
                    }
                }
            }
        }
        let ghost g3 = self.net.gates();
        let ghost terms3 = terms@;
        assert(rows_wf(g0, b0.reg_q@, d.reg_widths()));
        assert(d.reg_widths()[r as int] == d.regs@[r as int].width);
        assert(row_wf(self.reg_q@[r as int]@, g0.len()));
        let q: u32 = self.reg_q[r][b];
        assert(self.reg_q@[r as int]@[b as int] < g0.len());
        let hold: u32 = self.net.and(no_write, q);
        let ghost g4 = self.net.gates();
        terms.push(hold);
        let next: u32 = self.net.or_all(terms.as_slice());
        let ghost g5 = self.net.gates();
        // Freeze every register once the machine halts.
        let frozen: u32 = self.net.mux(halted_q, q, next);
        let ghost g6 = self.net.gates();
        let dsig: u32 = self.net.and(nreset, frozen);
        let ghost g7 = self.net.gates();
        proof {
            lemma_grown_trans(g0, g3, g4);
            lemma_grown_trans(g0, g4, g5);
            lemma_grown_trans(g0, g5, g6);
            lemma_grown_trans(g0, g6, g7);
            b0.lemma_inv_grown(self, base, 17 + 3 * n, state_q@, halted_q);
            assert forall|e: Env, regs: Seq<u64>|
                #![trigger sig_value(g7, e, dsig), holds_regs(d, e.q, regs)]
                holds_regs(d, e.q, regs) implies sig_value(g7, e, dsig) == next_bit(
                d,
                e,
                regs,
                r as int,
                b as int,
            ) by {
                lemma_any_push(g4, e, terms3, hold);
                lemma_levels_kept(g3, g4, e, terms3);
                assert(any_high(g3, e, terms3) == sets_bit(
                    d,
                    e,
                    regs,
                    ws@,
                    b as int,
                    ws@.len() as int,
                ));
                lemma_sets_bit(d, e, regs, ws@, r as int, b as int);
                assert(sig_value(g3, e, no_write) == sig_value(g0, e, no_write));
                assert(sig_value(g3, e, q) == sig_value(g0, e, q));
                assert(sig_value(g0, e, self.reg_q@[r as int]@[b as int]) == e.q[reg_base(
                    d.reg_widths(),
                    r as int,
                ) + b]);
                assert(sig_value(g5, e, halted_q) == sig_value(g0, e, halted_q));
                assert(sig_value(g5, e, q) == sig_value(g0, e, q));
                assert(sig_value(g6, e, nreset) == sig_value(g0, e, nreset));
            }
        }
        dsig
    }

    /// What the bits of register `r` take over at the clock edge. A register
    /// holds its value in any state that does not write it, so only one "is being
    /// written" term is needed rather than a mux arm per block.
    fn build_register(
        &mut self,
        state_q: &Vec<Sig>,
        halted_q: Sig,
        nreset: Sig,
        r: usize,
        Ghost(base): Ghost<nat>,
    ) -> (ds: Vec<Sig>)
        requires
            old(self).control(base, state_q@, halted_q),
            r < old(self).d.regs@.len(),
            nreset < old(self).net.gates().len(),
            forall|e: Env| #[trigger] sig_value(old(self).net.gates(), e, nreset) == !e.reset,
            base + 3 + old(self).d.regs@[r as int].width as nat * (17 + 3
                * old(self).d.blocks@.len()) + graph_cost(
                old(self).d.graph(),
                old(self).d.graph().len(),
            ) <= u32::MAX,
        ensures
            final(self).control(
                base + 3 + old(self).d.regs@[r as int].width as nat * (17 + 3
                    * old(self).d.blocks@.len()),
                state_q@,
                halted_q,
            ),
            old(self).same_but_gates(final(self)),
            ds@.len() == old(self).d.regs@[r as int].width,
            row_wf(ds@, final(self).net.gates().len()),
            forall|e: Env, regs: Seq<u64>, b: int|
                #![trigger sig_value(final(self).net.gates(), e, ds@[b]), holds_regs(old(self).d, e.q, regs)]
                0 <= b < ds@.len() && holds_regs(old(self).d, e.q, regs) ==> sig_value(
                    final(self).net.gates(),
                    e,
                    ds@[b],
                ) == next_bit(old(self).d, e, regs, r as int, b),
    {
        let ghost d = self.d;
        let ghost b0 = *self;
        let ghost g0 = self.net.gates();
        let ghost n = d.blocks@.len();
        let width: usize = self.d.regs[r].width as usize;
        let ws = self.writers(r);
        let ghost per = 17 + 3 * n;
        proof {
            assert(width as nat * per >= 0) by (nonlinear_arith);
            self.lemma_room(base, 3);
        }
        let mut ds: Vec<Sig> = Vec::new();
        if ws.len() == 0 {
            // Never written: hold forever, cleared by reset.
            proof {
                lemma_grown_refl(g0);
                assert(width as nat * per >= 3 * width as nat) by (nonlinear_arith)
                    requires
                        per >= 3,
                ;
                self.lemma_room(base, 3 + width as nat * per);
                assert(rows_wf(g0, b0.reg_q@, d.reg_widths()));
                assert(d.reg_widths()[r as int] == d.regs@[r as int].width);
            }
            for b in 0..width
                invariant
                    d == self.d,
                    b0.same_but_gates(self),
                    b0.cache == self.cache,
                    b0.control(base, state_q@, halted_q),
                    g0 == b0.net.gates(),
                    r < d.regs@.len(),
                    width == d.regs@[r as int].width,
                    is_writers(d, r as int, ws@),
                    ws@.len() == 0,
                    rows_wf(g0, b0.reg_q@, d.reg_widths()),
                    d.reg_widths()[r as int] == width,
                    nreset < g0.len(),
                    forall|e: Env| #[trigger] sig_value(g0, e, nreset) == !e.reset,
                    g0.len() + 3 * width <= u32::MAX,
                    self.net.gates().len() <= g0.len() + 3 * b,
                    ds@.len() == b,
                    row_wf(ds@, self.net.gates().len()),
                    forall|e: Env, regs: Seq<u64>, k: int|
                        #![trigger sig_value(self.net.gates(), e, ds@[k]), holds_regs(d, e.q, regs)]
                        0 <= k < b && holds_regs(d, e.q, regs) ==> sig_value(
                            self.net.gates(),
                            e,
                            ds@[k],
                        ) == next_bit(d, e, regs, r as int, k),
            {
                let ghost g1 = self.net.gates();
                let ghost ds1 = ds@;
                assert(row_wf(self.reg_q@[r as int]@, g0.len()));
                assert(self.reg_q@[r as int]@[b as int] < g0.len());
                let q: u32 = self.reg_q[r][b];
                let x: u32 = self.net.and(nreset, q);
                ds.push(x);
                let ghost g2 = self.net.gates();
                proof {
                    lemma_grown_trans(g0, g1, g2);
                    assert forall|e: Env, regs: Seq<u64>, k: int|
                        #![trigger sig_value(g2, e, ds@[k]), holds_regs(d, e.q, regs)]
                        0 <= k < b + 1 && holds_regs(d, e.q, regs) implies sig_value(g2, e, ds@[k])
                        == next_bit(d, e, regs, r as int, k) by {
                        if k < b {
                            assert(ds@[k] == ds1[k]);
                            assert(ds1[k] < g1.len());
                            assert(sig_value(g1, e, ds1[k]) == next_bit(d, e, regs, r as int, k));
                        } else {
                            assert(sig_value(g1, e, q) == sig_value(g0, e, q));
                            assert(sig_value(g1, e, nreset) == sig_value(g0, e, nreset));
                            assert(sig_value(g0, e, self.reg_q@[r as int]@[b as int])
                                == e.q[reg_base(d.reg_widths(), r as int) + b]);
                            assert(!written(d, e, r as int, d.blocks@.len() as int)) by {
                                if written(d, e, r as int, d.blocks@.len() as int) {
                                    let j = choose|j: int|
                                        0 <= j < d.blocks@.len() && #[trigger] e.q[state_base(d) + j]
                                            && writer(d, j, r as int) is Some;
                                    assert(writer(d, j, r as int) is Some);
                                }
                            }
                            assert(!written_bit(
                                d,
                                e,
                                regs,
                                r as int,
                                k,
                                d.blocks@.len() as int,
                            )) by {
                                lemma_sets_bit(d, e, regs, ws@, r as int, k);
                            }
                        }
                    }
                }
            }
            proof {
                b0.lemma_inv_grown(self, base, 3 + width as nat * per, state_q@, halted_q);
            }
            return ds;
        }
        let mut states: Vec<Sig> = Vec::new();
        for k in 0..ws.len()
            invariant
                d == self.d,
                wired(d, g0, self.reg_q@, state_q@, halted_q),
                is_writers(d, r as int, ws@),
                states@.len() == k,
                row_wf(states@, g0.len()),
                forall|j: int| 0 <= j < k ==> #[trigger] states@[j] == state_q@[ws@[j].0 as int],
        {
            assert(ws@[k as int].0 < d.blocks@.len());
            assert(state_q@[ws@[k as int].0 as int] < g0.len());
            states.push(state_q[ws[k].0]);
        }
        let any_write: u32 = self.net.or_all(states.as_slice());
        let ghost g1 = self.net.gates();
        let no_write: u32 = self.net.not(any_write);
        let ghost g2 = self.net.gates();
        proof {
            lemma_grown_trans(g0, g1, g2);
            b0.lemma_inv_grown(self, base, 3, state_q@, halted_q);
            assert forall|e: Env| #[trigger] sig_value(g2, e, no_write) == !written(
                d,
                e,
                r as int,
                n as int,
            ) by {
                if any_high(g0, e, states@) {
                    let k = choose|k: int| 0 <= k < states@.len() && sig_value(g0, e, #[trigger] states@[k]);
                    assert(writer(d, ws@[k].0 as int, r as int) == Some(ws@[k].1));
                    assert(sig_value(g0, e, state_q@[ws@[k].0 as int]) == e.q[state_base(d)
                        + ws@[k].0 as int]);
                }
                if written(d, e, r as int, n as int) {
                    let j = choose|j: int|
                        0 <= j < n && #[trigger] e.q[state_base(d) + j] && writer(
                            d,
                            j,
                            r as int,
                        ) is Some;
                    let k = choose|k: int| 0 <= k < ws@.len() && (#[trigger] ws@[k]).0 == j;
                    assert(sig_value(g0, e, state_q@[j]) == e.q[state_base(d) + j]);
                    assert(sig_value(g0, e, states@[k]));
                }
            }
        }
        let ghost base2 = base + 3;
        let mut values: Vec<Vec<Sig>> = Vec::new();
        for k in 0..ws.len()
            invariant
                d == self.d,
                self.control(base2, state_q@, halted_q),
                b0.same_but_gates(self),
                grown(g0, self.net.gates()),
                grown(g2, self.net.gates()),
                is_writers(d, r as int, ws@),
                values@.len() == k,
                forall|j: int|
                    0 <= j < k ==> denotes(
                        d,
                        self.net.gates(),
                        self.reg_q@,
                        ws@[j].1,
                        (#[trigger] values@[j])@,
                    ),
        {
            let ghost g3 = self.net.gates();
            let ghost values3 = values@;
            assert(ws@[k as int].1 < d.graph().len());
            let row = self.node_bits(ws[k].1, Ghost(base2));
            let ghost row_s = row@;
            values.push(row);
            proof {
                let g4 = self.net.gates();
                lemma_grown_trans(g0, g3, g4);
                lemma_grown_trans(g2, g3, g4);
                lemma_wired_kept(d, g3, g4, self.reg_q@, state_q@, halted_q);
                assert forall|j: int| 0 <= j < k + 1 implies denotes(
                    d,
                    g4,
                    self.reg_q@,
                    ws@[j].1,
                    (#[trigger] values@[j])@,
                ) by {
                    if j < k {
                        assert(values@[j] == values3[j]);
                        lemma_denotes_kept(d, g3, g4, self.reg_q@, ws@[j].1, values3[j]@);
                    }
                }
            }
        }
        let ghost g5 = self.net.gates();
        proof {
            lemma_grown_refl(g5);
            assert(0nat * per == 0) by (nonlinear_arith);
        }
        for b in 0..width
            invariant
                d == self.d,
                n == d.blocks@.len(),
                per == 17 + 3 * n,
                base2 == base + 3,
                r < d.regs@.len(),
                width == d.regs@[r as int].width,
                base2 + width as nat * per + graph_cost(d.graph(), d.graph().len()) <= u32::MAX,
                self.control((base2 + b as nat * per) as nat, state_q@, halted_q),
                b0.same_but_gates(self),
                grown(g0, self.net.gates()),
                grown(g2, self.net.gates()),
                grown(g5, self.net.gates()),
                rows_wf(g5, self.reg_q@, d.reg_widths()),
                is_writers(d, r as int, ws@),
                values@.len() == ws@.len(),
                forall|k: int|
                    0 <= k < ws@.len() ==> denotes(
                        d,
                        g5,
                        self.reg_q@,
                        ws@[k].1,
                        (#[trigger] values@[k])@,
                    ),
                nreset < g0.len(),
                no_write < g2.len(),
                forall|e: Env| #[trigger] sig_value(g0, e, nreset) == !e.reset,
                forall|e: Env| #[trigger]
                    sig_value(g2, e, no_write) == !written(d, e, r as int, n as int),
                ds@.len() == b,
                row_wf(ds@, self.net.gates().len()),
                forall|e: Env, regs: Seq<u64>, k: int|
                    #![trigger sig_value(self.net.gates(), e, ds@[k]), holds_regs(d, e.q, regs)]
                    0 <= k < b && holds_regs(d, e.q, regs) ==> sig_value(
                        self.net.gates(),
                        e,
                        ds@[k],
                    ) == next_bit(d, e, regs, r as int, k),
        {
            let ghost g6 = self.net.gates();
            let ghost ds6 = ds@;
            proof {
                assert(b as nat * per + per == (b + 1) as nat * per && (b + 1) as nat * per
                    <= width as nat * per) by (nonlinear_arith)
                    requires
                        b + 1 <= width,
                        per >= 0,
                ;
                assert forall|k: int| 0 <= k < ws@.len() implies denotes(
                    d,
                    g6,
                    self.reg_q@,
                    ws@[k].1,
                    (#[trigger] values@[k])@,
                ) by {
                    lemma_denotes_kept(d, g5, g6, self.reg_q@, ws@[k].1, values@[k]@);
                }
                assert forall|e: Env| #[trigger] sig_value(g6, e, nreset) == !e.reset by {
                    assert(sig_value(g6, e, nreset) == sig_value(g0, e, nreset));
                }
                assert forall|e: Env| #[trigger] sig_value(g6, e, no_write) == !written(
                    d,
                    e,
                    r as int,
                    n as int,
                ) by {
                    assert(sig_value(g6, e, no_write) == sig_value(g2, e, no_write));
                }
            }
            let x: u32 = self.register_bit(
                state_q,
                halted_q,
                nreset,
                no_write,
                &ws,
                &values,
                r,
                b,
                Ghost((base2 + b as nat * per) as nat),
            );
            ds.push(x);
            proof {
                let g7 = self.net.gates();
                lemma_grown_trans(g0, g6, g7);
                lemma_grown_trans(g2, g6, g7);
                lemma_grown_trans(g5, g6, g7);
                assert forall|e: Env, regs: Seq<u64>, k: int|
                    #![trigger sig_value(g7, e, ds@[k]), holds_regs(d, e.q, regs)]
                    0 <= k < b + 1 && holds_regs(d, e.q, regs) implies sig_value(g7, e, ds@[k])
                    == next_bit(d, e, regs, r as int, k) by {
                    if k < b {
                        assert(ds@[k] == ds6[k]);
                        assert(ds6[k] < g6.len());
                        assert(sig_value(g6, e, ds6[k]) == next_bit(d, e, regs, r as int, k));
                        assert(sig_value(g7, e, ds6[k]) == sig_value(g6, e, ds6[k]));
                    } else {
                        assert(sig_value(g7, e, x) == next_bit(d, e, regs, r as int, k));
                    }
                }
            }
        }
        ds
    }

    /// What the bits of all registers take over, in the order of the flip-flops.
    fn build_register_updates(
        &mut self,
        state_q: &Vec<Sig>,
        halted_q: Sig,
        Ghost(base): Ghost<nat>,
    ) -> (ds: Vec<Sig>)
        requires
            old(self).control(base, state_q@, halted_q),
            base + 2 + update_cost(
                old(self).d.reg_widths(),
                old(self).d.blocks@.len(),
                old(self).d.regs@.len() as int,
            ) + graph_cost(old(self).d.graph(), old(self).d.graph().len()) <= u32::MAX,
        ensures
            final(self).net.wf(),
            old(self).same_but_gates(final(self)),
            ds@.len() == state_base(old(self).d),
            row_wf(ds@, final(self).net.gates().len()),
            forall|e: Env, regs: Seq<u64>, r: int, b: int|
                #![trigger next_bit(old(self).d, e, regs, r, b)]
                0 <= r < old(self).d.regs@.len() && 0 <= b < old(self).d.regs@[r].width
                    && holds_regs(old(self).d, e.q, regs) ==> sig_value(
                    final(self).net.gates(),
                    e,
                    ds@[reg_base(old(self).d.reg_widths(), r) + b],
                ) == next_bit(old(self).d, e, regs, r, b),
            final(self).net.gates().len() <= base + 2 + update_cost(
                old(self).d.reg_widths(),
                old(self).d.blocks@.len(),
                old(self).d.regs@.len() as int,
            ) + graph_cost(old(self).d.graph(), old(self).d.graph().len()),
    {
        let ghost d = self.d;
        let ghost rw = d.reg_widths();
        let ghost n = d.blocks@.len();
        let ghost b0 = *self;
        let ghost g0 = self.net.gates();
        proof {
            self.lemma_room(base, 2);
        }
        let reset: u32 = self.net.reset();
        let ghost g1 = self.net.gates();
        let nreset: u32 = self.net.not(reset);
        let ghost g2 = self.net.gates();
        proof {
            lemma_grown_trans(g0, g1, g2);
            b0.lemma_inv_grown(self, base, 2, state_q@, halted_q);
            lemma_grown_refl(g2);
            assert forall|e: Env| #[trigger] sig_value(g2, e, nreset) == !e.reset by {
                assert(sig_value(g1, e, reset) == e.reset);
            }
        }
        let ghost base2 = base + 2;
        let mut ds: Vec<Sig> = Vec::new();
        let count: usize = self.d.regs.len();
        for r in 0..count
            invariant
                d == self.d,
                count == d.regs@.len(),
                rw == d.reg_widths(),
                n == d.blocks@.len(),
                base2 + update_cost(rw, n, d.regs@.len() as int) + graph_cost(
                    d.graph(),
                    d.graph().len(),
                ) <= u32::MAX,
                self.control(base2 + update_cost(rw, n, r as int), state_q@, halted_q),
                b0.same_but_gates(self),
                grown(g0, self.net.gates()),
                grown(g2, self.net.gates()),
                nreset < g2.len(),
                forall|e: Env| #[trigger] sig_value(g2, e, nreset) == !e.reset,
                ds@.len() == reg_base(rw, r as int),
                row_wf(ds@, self.net.gates().len()),
                forall|e: Env, regs: Seq<u64>, k: int, b: int|
                    #![trigger next_bit(d, e, regs, k, b)]
                    0 <= k < r && 0 <= b < d.regs@[k].width && holds_regs(d, e.q, regs)
                        ==> sig_value(self.net.gates(), e, ds@[reg_base(rw, k) + b]) == next_bit(
                        d,
                        e,
                        regs,
                        k,
                        b,
                    ),
        {
            let ghost g3 = self.net.gates();
            let ghost ds3 = ds@;
            proof {
                lemma_update_cost_le(rw, n, r + 1, d.regs@.len() as int);
                assert(rw[r as int] == d.regs@[r as int].width);
                assert forall|e: Env| #[trigger] sig_value(g3, e, nreset) == !e.reset by {
                    assert(sig_value(g3, e, nreset) == sig_value(g2, e, nreset));
                }
            }
            let row = self.build_register(
                state_q,
                halted_q,
                nreset,
                r,
                Ghost(base2 + update_cost(rw, n, r as int)),
            );
            let ghost g4 = self.net.gates();
            for b in 0..row.len()
                invariant
                    ds@ == ds3 + row@.take(b as int),
            {
                ds.push(row[b]);
                assert(ds@ =~= ds3 + row@.take(b + 1));
            }
            proof {
                assert(row@.take(row@.len() as int) =~= row@);
                lemma_grown_trans(g0, g3, g4);
                lemma_grown_trans(g2, g3, g4);
                assert forall|k: int| 0 <= k < ds@.len() implies (#[trigger] ds@[k]) < g4.len() by {
                    if k < ds3.len() {
                        assert(ds@[k] == ds3[k]);
                    } else {
                        assert(ds@[k] == row@[k - ds3.len()]);
                    }
                }
                assert forall|e: Env, regs: Seq<u64>, k: int, b: int|
                    #![trigger next_bit(d, e, regs, k, b)]
                    0 <= k < r + 1 && 0 <= b < d.regs@[k].width && holds_regs(
                        d,
                        e.q,
                        regs,
                    ) implies sig_value(g4, e, ds@[reg_base(rw, k) + b]) == next_bit(
                    d,
                    e,
                    regs,
                    k,
                    b,
                ) by {
                    assert(rw[k] == d.regs@[k].width);
                    if k < r {
                        lemma_reg_base_le(rw, k + 1, r as int);
                        let at = reg_base(rw, k) + b;
                        assert(at < ds3.len());
                        assert(ds@[at] == ds3[at]);
                        assert(ds3[at] < g3.len());
                        assert(sig_value(g3, e, ds3[at]) == next_bit(d, e, regs, k, b));
                    } else {
                        let at = reg_base(rw, k) + b;
                        assert(ds@[at] == row@[b]);
                        assert(sig_value(g4, e, row@[b]) == next_bit(d, e, regs, k, b));
                    }
                }
            }
        }
        proof {
            lemma_spent_bound(d.graph(), self.cache@, d.graph().len());
        }
        ds
    }
}

proof fn lemma_reg_base_le(rw: Seq<u32>, a: int, b: int)
    requires
        a <= b,
    ensures
        reg_base(rw, a) <= reg_base(rw, b),
    decreases b - a,
{
    if a < b {
        lemma_reg_base_le(rw, a, b - 1);
    }
}

proof fn lemma_update_cost_le(rw: Seq<u32>, blocks: nat, a: int, b: int)
    requires
        a <= b,
    ensures
        update_cost(rw, blocks, a) <= update_cost(rw, blocks, b),
    decreases b - a,
{
    if a < b {
        lemma_update_cost_le(rw, blocks, a, b - 1);
        if b > 0 {
            assert(rw[b - 1] as nat * (17 + 3 * blocks) >= 0) by (nonlinear_arith);
        }
    }
}

// --- the whole machine ---------------------------------------------------

/// The flip-flops `q` hold the configuration `c`: the registers bit by bit,
/// exactly one state bit, and whether the machine has halted.
pub open spec fn encodes(d: &Design, q: Seq<bool>, c: Config) -> bool {
    &&& q.len() == halt_index(d) + 1
    &&& holds_regs(d, q, c.regs)
    &&& c.state < d.blocks@.len()
    &&& forall|i: int|
        0 <= i < d.blocks@.len() ==> #[trigger] q[state_base(d) + i] == (i == c.state)
    &&& q[halt_index(d) as int] == c.done
}

pub open spec fn reg_dff_name(d: &Design, r: int, b: int) -> Seq<char> {
    d.regs@[r].name@ + "["@ + decimal(b as nat) + "]"@
}

pub open spec fn state_dff_name(d: &Design, i: int) -> Seq<char> {
    "state."@ + d.blocks@[i].label@ + "#"@ + decimal(i as nat)
}

/// The flip-flops carry the names of what they hold.
pub open spec fn named(d: &Design, net: &Netlist) -> bool {
    &&& net.dffs@.len() == halt_index(d) + 1
    &&& forall|r: int, b: int|
        #![trigger reg_dff_name(d, r, b)]
        0 <= r < d.regs@.len() && 0 <= b < d.regs@[r].width ==> net.dffs@[reg_base(
            d.reg_widths(),
            r,
        ) + b].name@ == reg_dff_name(d, r, b)
    &&& forall|i: int|
        0 <= i < d.blocks@.len() ==> net.dffs@[state_base(d) + i].name@ == #[trigger] state_dff_name(
            d,
            i,
        )
    &&& net.dffs@[halt_index(d) as int].name@ == "halted"@
}

/// The ports of the netlist are those of the design; outputs show registers.
pub open spec fn ported(d: &Design, net: &Netlist) -> bool {
    &&& net.input_names@.len() == d.inputs@.len()
    &&& forall|i: int|
        0 <= i < d.inputs@.len() ==> (#[trigger] net.input_names@[i])@ == d.inputs@[i].name@
    &&& net.outputs@.len() == d.outputs@.len()
    &&& forall|k: int|
        0 <= k < d.outputs@.len() ==> (#[trigger] net.outputs@[k]).0@ == d.outputs@[k].0@
            && net.outputs@[k].1@.len() == d.regs@[d.outputs@[k].1 as int].width
    &&& forall|e: Env, k: int, b: int|
        #![trigger sig_value(net.gates(), e, net.outputs@[k].1@[b])]
        0 <= k < d.outputs@.len() && 0 <= b < net.outputs@[k].1@.len() ==> sig_value(
            net.gates(),
            e,
            net.outputs@[k].1@[b],
        ) == e.q[reg_base(d.reg_widths(), d.outputs@[k].1 as int) + b]
    &&& forall|e: Env| #[trigger]
        sig_value(net.gates(), e, net.done) == e.q[halt_index(d) as int]
}

/// The netlist does at each clock edge what the design does in each cycle, and
/// reset brings it to the start.
pub open spec fn implements(d: &Design, net: &Netlist) -> bool {
    &&& net.wf()
    &&& named(d, net)
    &&& ported(d, net)
    &&& forall|e: Env|
        e.reset && e.q.len() == net.dffs@.len() ==> encodes(
            d,
            #[trigger] clocked(net, e),
            initial(d),
        )
    &&& forall|e: Env, c: Config|
        #![trigger clocked(net, e), encodes(d, e.q, c)]
        !e.reset && encodes(d, e.q, c) ==> encodes(d, clocked(net, e), next(d, e.ins, c))
}

/// The flip-flops after `n` clock edges without reset.
pub open spec fn clocked_n(net: &Netlist, ins: Seq<u64>, q: Seq<bool>, n: nat) -> Seq<bool>
    decreases n,
{
    if n == 0 {
        q
    } else {
        clocked_n(net, ins, clocked(net, Env { q, ins, reset: false }), (n - 1) as nat)
    }
}

/// Gates that hold a configuration go on as the golden model does.
pub proof fn lemma_gates_follow(
    d: &Design,
    net: &Netlist,
    ins: Seq<u64>,
    q: Seq<bool>,
    c: Config,
    n: nat,
)
    requires
        implements(d, net),
        encodes(d, q, c),
    ensures
        encodes(d, clocked_n(net, ins, q, n), after(d, ins, c, n)),
    decreases n,
{
    if n > 0 {
        let e = Env { q, ins, reset: false };
        assert(encodes(d, e.q, c));
        lemma_gates_follow(d, net, ins, clocked(net, e), next(d, ins, c), (n - 1) as nat);
    }
}

/// The gates agree with the golden model: whatever the flip-flops held, after a
/// clock edge with reset high and `n` with reset low they hold the machine's
/// configuration after `n` cycles, exactly one state bit is set, `done` is high
/// just when the machine has halted, and the outputs show its registers.
pub proof fn lemma_gates_match_golden(
    d: &Design,
    net: &Netlist,
    ins: Seq<u64>,
    q: Seq<bool>,
    n: nat,
)
    requires
        synthesizable(d),
        implements(d, net),
        q.len() == net.dffs@.len(),
    ensures
        ({
            let start = clocked(net, Env { q, ins, reset: true });
            let end = clocked_n(net, ins, start, n);
            let c = after(d, ins, initial(d), n);
            &&& encodes(d, end, c)
            &&& sig_value(net.gates(), Env { q: end, ins, reset: false }, net.done) == c.done
            &&& forall|k: int|
                0 <= k < d.outputs@.len() ==> levels(
                    net.gates(),
                    Env { q: end, ins, reset: false },
                    (#[trigger] net.outputs@[k]).1@,
                ) == bits_of(
                    c.regs[d.outputs@[k].1 as int],
                    d.regs@[d.outputs@[k].1 as int].width as nat,
                )
        }),
{
    let e0 = Env { q, ins, reset: true };
    let start = clocked(net, e0);
    assert(encodes(d, start, initial(d)));
    lemma_gates_follow(d, net, ins, start, initial(d), n);
    let end = clocked_n(net, ins, start, n);
    let c = after(d, ins, initial(d), n);
    let e = Env { q: end, ins, reset: false };
    assert forall|k: int| 0 <= k < d.outputs@.len() implies levels(
        net.gates(),
        e,
        (#[trigger] net.outputs@[k]).1@,
    ) == bits_of(
        c.regs[d.outputs@[k].1 as int],
        d.regs@[d.outputs@[k].1 as int].width as nat,
    ) by {
        let row = net.outputs@[k].1@;
        let r = d.outputs@[k].1 as int;
        let l = levels(net.gates(), e, row);
        let w = d.regs@[r].width;
        assert forall|b: int| 0 <= b < w implies l[b] == bits_of(c.regs[r], w as nat)[b] by {
            assert(sig_value(net.gates(), e, net.outputs@[k].1@[b]) == e.q[reg_base(
                d.reg_widths(),
                r,
            ) + b]);
            assert(bit(c.regs[r], b) == end[reg_base(d.reg_widths(), r) + b]);
        }
        assert(l =~= bits_of(c.regs[r], w as nat));
    }
}

/// The register values that the flip-flops hold.
spec fn decoded(d: &Design, q: Seq<bool>) -> Seq<u64> {
    Seq::new(
        d.regs@.len(),
        |r: int|
            word(
                q.subrange(
                    reg_base(d.reg_widths(), r) as int,
                    (reg_base(d.reg_widths(), r) + d.regs@[r].width) as int,
                ),
            ) as u64,
    )
}

proof fn lemma_decoded(d: &Design, q: Seq<bool>)
    requires
        q.len() >= state_base(d),
        forall|r: int| 0 <= r < d.regs@.len() ==> 1 <= (#[trigger] d.regs@[r]).width <= 64,
    ensures
        holds_regs(d, q, decoded(d, q)),
{
    let rw = d.reg_widths();
    let regs = decoded(d, q);
    assert forall|r: int| 0 <= r < d.regs@.len() implies fits(#[trigger] regs[r], rw[r]) && (forall|
        b: int,
    | 0 <= b < rw[r] ==> q[reg_base(rw, r) + b] == #[trigger] bit(regs[r], b)) by {
        lemma_reg_base_le(rw, r + 1, d.regs@.len() as int);
        let lo = reg_base(rw, r) as int;
        let w = d.regs@[r].width;
        assert(rw[r] == w);
        let row = q.subrange(lo, lo + w);
        lemma_word_bound(row);
        vstd::arithmetic::power2::lemma2_to64_rest();
        if w < 64 {
            vstd::arithmetic::power2::lemma_pow2_strictly_increases(w as nat, 64);
        }
        assert(word(row) <= u64::MAX);
        assert(regs[r] as nat == word(row));
        lemma_fits_bound(regs[r], w);
        vstd::arithmetic::div_mod::lemma_small_mod(word(row), pow2(w as nat));
        crate::bits::lemma_bits_from_word(row, regs[r]);
        assert forall|b: int| 0 <= b < rw[r] implies q[reg_base(rw, r) + b] == #[trigger] bit(
            regs[r],
            b,
        ) by {
            assert(row[b] == q[lo + b]);
        }
    }
}

/// A block's writes, register by register.
proof fn lemma_commit_reg(
    d: &Design,
    regs: Seq<u64>,
    ins: Seq<u64>,
    assigns: Seq<(RegId, NodeId)>,
    r: int,
)
    requires
        0 <= r < regs.len(),
        forall|k: int| 0 <= k < assigns.len() ==> (#[trigger] assigns[k]).0 < regs.len(),
        forall|i: int, j: int|
            0 <= i < j < assigns.len() ==> (#[trigger] assigns[i]).0 != (#[trigger] assigns[j]).0,
    ensures
        commit(d, regs, ins, assigns).len() == regs.len(),
        commit(d, regs, ins, assigns)[r] == match writer_from(assigns, r, 0) {
            Some(v) => mask_of(d.graph().value(regs, ins, v), d.regs@[r].width),
            None => regs[r],
        },
    decreases assigns.len(),
{
    if assigns.len() > 0 {
        let rest = assigns.drop_last();
        assert forall|k: int| 0 <= k < rest.len() implies (#[trigger] rest[k]).0 < regs.len() by {
            assert(rest[k] == assigns[k]);
        }
        assert forall|i: int, j: int| 0 <= i < j < rest.len() implies (#[trigger] rest[i]).0 != (
        #[trigger] rest[j]).0 by {
            assert(rest[i] == assigns[i] && rest[j] == assigns[j]);
        }
        lemma_commit_reg(d, regs, ins, rest, r);
        lemma_writer_last(assigns, r, 0);
        assert(assigns[assigns.len() - 1].0 < regs.len());
    }
}

proof fn lemma_writer_last(assigns: Seq<(RegId, NodeId)>, r: int, k: int)
    requires
        assigns.len() > 0,
        0 <= k < assigns.len(),
        forall|i: int, j: int|
            0 <= i < j < assigns.len() ==> (#[trigger] assigns[i]).0 != (#[trigger] assigns[j]).0,
    ensures
        writer_from(assigns, r, k) == if assigns.last().0 == r {
            Some(assigns.last().1)
        } else {
            writer_from(assigns.drop_last(), r, k)
        },
    decreases assigns.len() - k,
{
    let n = assigns.len() - 1;
    if k < n {
        assert(assigns[k].0 != assigns[n].0);
        assert(assigns.drop_last()[k] == assigns[k]);
        lemma_writer_last(assigns, r, k + 1);
    } else {
        assert(writer_from(assigns, r, k + 1) is None);
        assert(writer_from(assigns.drop_last(), r, k) is None);
    }
}

/// Registers keep fitting.
pub proof fn lemma_next_fits(d: &Design, ins: Seq<u64>, c: Config)
    requires
        synthesizable(d),
        regs_fit(d.reg_widths(), c.regs),
        c.state < d.blocks@.len(),
    ensures
        regs_fit(d.reg_widths(), next(d, ins, c).regs),
        next(d, ins, c).state < d.blocks@.len(),
{
    if !c.done {
        let b = d.blocks@[c.state as int];
        assert(block_runnable(d, b));
        assert(distinct_writes(b));
        let rw = d.reg_widths();
        let regs = next(d, ins, c).regs;
        if rw.len() > 0 {
            lemma_commit_reg(d, c.regs, ins, b.assigns@, 0);
        } else if b.assigns@.len() > 0 {
            assert(b.assigns@[0].0 < d.regs@.len());
        }
        assert forall|r: int| 0 <= r < rw.len() implies fits(#[trigger] regs[r], rw[r]) by {
            lemma_commit_reg(d, c.regs, ins, b.assigns@, r);
            if let Some(v) = writer_from(b.assigns@, r, 0) {
                lemma_mask_idempotent(d.graph().value(c.regs, ins, v), d.regs@[r].width);
            }
        }
    }
}

/// Flip-flops that take over what they should hold the next configuration.
proof fn lemma_step_encodes(d: &Design, e: Env, c: Config, q2: Seq<bool>)
    requires
        synthesizable(d),
        encodes(d, e.q, c),
        !e.reset,
        q2.len() == halt_index(d) + 1,
        forall|r: int, b: int|
            #![trigger next_bit(d, e, c.regs, r, b)]
            0 <= r < d.regs@.len() && 0 <= b < d.regs@[r].width ==> q2[reg_base(d.reg_widths(), r)
                + b] == next_bit(d, e, c.regs, r, b),
        forall|i: int|
            0 <= i < d.blocks@.len() ==> #[trigger] q2[state_base(d) + i] == next_state(
                d,
                e,
                c.regs,
                i,
            ),
        q2[halt_index(d) as int] == next_halt(d, e),
    ensures
        encodes(d, q2, next(d, e.ins, c)),
{
    let c2 = next(d, e.ins, c);
    let n = d.blocks@.len() as int;
    let rw = d.reg_widths();
    let s = c.state as int;
    let blk = d.blocks@[s];
    lemma_next_fits(d, e.ins, c);
    assert(block_runnable(d, blk));
    assert(distinct_writes(blk));
    assert(e.q[state_base(d) + s]);
    // Only the active block counts.
    assert(halting(d, e, n) == (blk.term is Halt)) by {
        if halting(d, e, n) {
            let j = choose|j: int|
                0 <= j < n && #[trigger] e.q[state_base(d) + j] && d.blocks@[j].term is Halt;
            assert(j == s);
        }
    }
    assert forall|i: int| 0 <= i < n implies arrives(d, e, c.regs, i, n) == (target(
        d,
        c.regs,
        e.ins,
        s,
    ) == i) by {
        if arrives(d, e, c.regs, i, n) {
            let j = choose|j: int|
                0 <= j < n && #[trigger] e.q[state_base(d) + j] && target(d, c.regs, e.ins, j) == i;
            assert(j == s);
        }
    }
    if let Term::Branch { cond, .. } = blk.term {
        lemma_low_bit(d.graph().value(c.regs, e.ins, cond));
    }
    assert forall|i: int| 0 <= i < n implies #[trigger] q2[state_base(d) + i] == (i == c2.state) by {
        assert(q2[state_base(d) + i] == next_state(d, e, c.regs, i));
        assert(arrives(d, e, c.regs, i, n) == (target(d, c.regs, e.ins, s) == i));
    }
    assert forall|r: int, b: int|
        #![trigger bit(c2.regs[r], b)]
        0 <= r < d.regs@.len() && 0 <= b < d.regs@[r].width implies q2[reg_base(rw, r) + b] == bit(
        c2.regs[r],
        b,
    ) by {
        assert(q2[reg_base(rw, r) + b] == next_bit(d, e, c.regs, r, b));
        assert(e.q[reg_base(rw, r) + b] == bit(c.regs[r], b));
        assert(written(d, e, r, n) == (writer(d, s, r) is Some)) by {
            if written(d, e, r, n) {
                let j = choose|j: int|
                    0 <= j < n && #[trigger] e.q[state_base(d) + j] && writer(d, j, r) is Some;
                assert(j == s);
            }
        }
        assert(written_bit(d, e, c.regs, r, b, n) == (writer(d, s, r) is Some && bit(
            d.graph().value(c.regs, e.ins, writer(d, s, r)->0),
            b,
        ))) by {
            if written_bit(d, e, c.regs, r, b, n) {
                let j = choose|j: int|
                    0 <= j < n && #[trigger] e.q[state_base(d) + j] && writer(d, j, r) is Some
                        && bit(d.graph().value(c.regs, e.ins, writer(d, j, r)->0), b);
                assert(j == s);
            }
        }
        if !c.done {
            lemma_commit_reg(d, c.regs, e.ins, blk.assigns@, r);
            if let Some(v) = writer(d, s, r) {
                lemma_mask_bit(d.graph().value(c.regs, e.ins, v), d.regs@[r].width, b);
            }
        }
    }
}

/// Reset brings the flip-flops to the start.
proof fn lemma_reset_encodes(d: &Design, e: Env, regs: Seq<u64>, q2: Seq<bool>)
    requires
        synthesizable(d),
        e.reset,
        q2.len() == halt_index(d) + 1,
        forall|r: int, b: int|
            #![trigger next_bit(d, e, regs, r, b)]
            0 <= r < d.regs@.len() && 0 <= b < d.regs@[r].width ==> q2[reg_base(d.reg_widths(), r)
                + b] == next_bit(d, e, regs, r, b),
        forall|i: int|
            0 <= i < d.blocks@.len() ==> #[trigger] q2[state_base(d) + i] == next_state(
                d,
                e,
                regs,
                i,
            ),
        q2[halt_index(d) as int] == next_halt(d, e),
    ensures
        encodes(d, q2, initial(d)),
{
    let c = initial(d);
    let rw = d.reg_widths();
    assert forall|r: int| 0 <= r < rw.len() implies fits(#[trigger] c.regs[r], rw[r]) by {
        assert(mask_of(d.regs@[r].reset, d.regs@[r].width) == 0);
        lemma_small(rw[r]);
    }
    assert forall|r: int, b: int|
        #![trigger bit(c.regs[r], b)]
        0 <= r < d.regs@.len() && 0 <= b < d.regs@[r].width implies q2[reg_base(rw, r) + b] == bit(
        c.regs[r],
        b,
    ) by {
        assert(q2[reg_base(rw, r) + b] == next_bit(d, e, regs, r, b));
        assert(mask_of(d.regs@[r].reset, d.regs@[r].width) == 0);
        lemma_small(rw[r]);
        lemma_zero_bits(0, rw[r]);
    }
}

/// The rows of the first `n` registers carry the outputs of their flip-flops.
spec fn rows_done(d: &Design, gates: Seq<Gate>, reg_q: Seq<Vec<Sig>>, n: int) -> bool {
    &&& reg_q.len() == n
    &&& forall|r: int|
        0 <= r < n ==> (#[trigger] reg_q[r])@.len() == d.regs@[r].width && row_wf(
            reg_q[r]@,
            gates.len(),
        )
    &&& forall|e: Env, r: int, b: int|
        #![trigger sig_value(gates, e, reg_q[r]@[b])]
        0 <= r < n && 0 <= b < d.regs@[r].width ==> sig_value(gates, e, reg_q[r]@[b])
            == e.q[reg_base(d.reg_widths(), r) + b]
}

proof fn lemma_rows_done_kept(
    d: &Design,
    g0: Seq<Gate>,
    g1: Seq<Gate>,
    reg_q: Seq<Vec<Sig>>,
    n: int,
)
    requires
        grown(g0, g1),
        rows_done(d, g0, reg_q, n),
    ensures
        rows_done(d, g1, reg_q, n),
{
    assert forall|r: int| 0 <= r < n implies (#[trigger] reg_q[r])@.len() == d.regs@[r].width
        && row_wf(reg_q[r]@, g1.len()) by {
        assert(row_wf(reg_q[r]@, g0.len()));
    }
    assert forall|e: Env, r: int, b: int|
        #![trigger sig_value(g1, e, reg_q[r]@[b])]
        0 <= r < n && 0 <= b < d.regs@[r].width implies sig_value(g1, e, reg_q[r]@[b])
        == e.q[reg_base(d.reg_widths(), r) + b] by {
        assert(row_wf(reg_q[r]@, g0.len()));
        assert(reg_q[r]@[b] < g0.len());
        assert(sig_value(g0, e, reg_q[r]@[b]) == e.q[reg_base(d.reg_widths(), r) + b]);
    }
}

fn reg_bit_name(name: &String, b: u32) -> (s: String)
    ensures
        s@ == name@ + "["@ + decimal(b as nat) + "]"@,
{
    let mut s = name.clone();
    s.append("[");
    push_decimal(&mut s, b as u64);
    s.append("]");
    s
}

fn state_name(label: &String, i: usize) -> (s: String)
    ensures
        s@ == "state."@ + label@ + "#"@ + decimal(i as nat),
{
    let mut s = String::from_str("state.");
    s.append(label.as_str());
    s.append("#");
    push_decimal(&mut s, i as u64);
    s
}

/// Flip-flops for the registers, bit by bit.
fn alloc_registers(d: &Design, net: &mut Netlist) -> (reg_q: Vec<Vec<Sig>>)
    requires
        old(net).wf(),
        old(net).gates().len() == 2,
        old(net).dffs@.len() == 0,
        state_base(d) + 2 <= u32::MAX,
    ensures
        final(net).wf(),
        rows_done(d, final(net).gates(), reg_q@, d.regs@.len() as int),
        final(net).dffs@.len() == state_base(d),
        final(net).gates().len() <= 2 + state_base(d),
        final(net).input_names == old(net).input_names,
        final(net).outputs == old(net).outputs,
        forall|r: int, b: int|
            #![trigger reg_dff_name(d, r, b)]
            0 <= r < d.regs@.len() && 0 <= b < d.regs@[r].width ==> final(net).dffs@[reg_base(
                d.reg_widths(),
                r,
            ) + b].name@ == reg_dff_name(d, r, b),
{
    let ghost rw = d.reg_widths();
    let mut reg_q: Vec<Vec<Sig>> = Vec::new();
    for r in 0..d.regs.len()
        invariant
            rw == d.reg_widths(),
            state_base(d) + 2 <= u32::MAX,
            net.wf(),
            rows_done(d, net.gates(), reg_q@, r as int),
            net.dffs@.len() == reg_base(rw, r as int),
            net.gates().len() <= 2 + reg_base(rw, r as int),
            net.input_names == old(net).input_names,
            net.outputs == old(net).outputs,
            forall|k: int, b: int|
                #![trigger reg_dff_name(d, k, b)]
                0 <= k < r && 0 <= b < d.regs@[k].width ==> net.dffs@[reg_base(rw, k) + b].name@
                    == reg_dff_name(d, k, b),
    {
        let width: u32 = d.regs[r].width;
        let mut qs: Vec<Sig> = Vec::new();
        let ghost g1 = net.gates();
        proof {
            lemma_grown_refl(g1);
            lemma_reg_base_le(rw, r + 1, d.regs@.len() as int);
            assert(rw[r as int] == width);
        }
        for b in 0..width
            invariant
                rw == d.reg_widths(),
                r < d.regs@.len(),
                rw[r as int] == width,
                d.regs@[r as int].width == width,
                reg_base(rw, r as int) + width + 2 <= u32::MAX,
                net.wf(),
                grown(g1, net.gates()),
                qs@.len() == b,
                row_wf(qs@, net.gates().len()),
                forall|e: Env, k: int|
                    0 <= k < b ==> #[trigger] sig_value(net.gates(), e, qs@[k]) == e.q[reg_base(
                        rw,
                        r as int,
                    ) + k],
                net.dffs@.len() == reg_base(rw, r as int) + b,
                net.gates().len() <= 2 + reg_base(rw, r as int) + b,
                net.input_names == old(net).input_names,
                net.outputs == old(net).outputs,
                forall|k: int, c: int|
                    #![trigger reg_dff_name(d, k, c)]
                    0 <= k < r && 0 <= c < d.regs@[k].width ==> net.dffs@[reg_base(rw, k)
                        + c].name@ == reg_dff_name(d, k, c),
                forall|c: int|
                    0 <= c < b ==> net.dffs@[reg_base(rw, r as int) + c].name@
                        == #[trigger] reg_dff_name(d, r as int, c),
        {
            let ghost g2 = net.gates();
            let ghost dffs2 = net.dffs@;
            let ghost qs2 = qs@;
            let name = reg_bit_name(&d.regs[r].name, b);
            let (idx, q) = net.add_dff(name.as_str());
            qs.push(q);
            proof {
                let g3 = net.gates();
                lemma_grown_trans(g1, g2, g3);
                assert forall|e: Env, k: int| 0 <= k < b + 1 implies #[trigger] sig_value(
                    g3,
                    e,
                    qs@[k],
                ) == e.q[reg_base(rw, r as int) + k] by {
                    if k < b {
                        assert(qs@[k] == qs2[k]);
                        assert(qs2[k] < g2.len());
                        assert(sig_value(g2, e, qs2[k]) == e.q[reg_base(rw, r as int) + k]);
                    }
                }
                assert forall|k: int, c: int|
                    #![trigger reg_dff_name(d, k, c)]
                    0 <= k < r && 0 <= c < d.regs@[k].width implies net.dffs@[reg_base(rw, k)
                    + c].name@ == reg_dff_name(d, k, c) by {
                    lemma_reg_base_le(rw, k + 1, r as int);
                    assert(rw[k] == d.regs@[k].width);
                    assert(net.dffs@[reg_base(rw, k) + c] == dffs2[reg_base(rw, k) + c]);
                }
                assert forall|c: int| 0 <= c < b + 1 implies net.dffs@[reg_base(rw, r as int)
                    + c].name@ == #[trigger] reg_dff_name(d, r as int, c) by {
                    if c < b {
                        assert(net.dffs@[reg_base(rw, r as int) + c] == dffs2[reg_base(
                            rw,
                            r as int,
                        ) + c]);
                    }
                }
            }
        }
        let ghost reg_q1 = reg_q@;
        let ghost row = qs@;
        reg_q.push(qs);
        proof {
            let g2 = net.gates();
            lemma_rows_done_kept(d, g1, g2, reg_q1, r as int);
            assert forall|k: int| 0 <= k < r + 1 implies (#[trigger] reg_q@[k])@.len()
                == d.regs@[k].width && row_wf(reg_q@[k]@, g2.len()) by {
                if k < r {
                    assert(reg_q@[k] == reg_q1[k]);
                }
            }
            assert forall|e: Env, k: int, b: int|
                #![trigger sig_value(g2, e, reg_q@[k]@[b])]
                0 <= k < r + 1 && 0 <= b < d.regs@[k].width implies sig_value(
                g2,
                e,
                reg_q@[k]@[b],
            ) == e.q[reg_base(rw, k) + b] by {
                if k < r {
                    assert(reg_q@[k] == reg_q1[k]);
                    assert(sig_value(g2, e, reg_q1[k]@[b]) == e.q[reg_base(rw, k) + b]);
                } else {
                    assert(sig_value(g2, e, row[b]) == e.q[reg_base(rw, k) + b]);
                }
            }
            assert forall|k: int, b: int|
                #![trigger reg_dff_name(d, k, b)]
                0 <= k < r + 1 && 0 <= b < d.regs@[k].width implies net.dffs@[reg_base(rw, k)
                + b].name@ == reg_dff_name(d, k, b) by {}
        }
    }
    reg_q
}

/// Flip-flops for the states, one per block, and the one for `halted`.
fn alloc_states(d: &Design, net: &mut Netlist) -> (r: (Vec<Sig>, Sig))
    requires
        old(net).wf(),
        old(net).dffs@.len() == state_base(d),
        old(net).gates().len() <= 2 + state_base(d),
        halt_index(d) + 3 <= u32::MAX,
    ensures
        final(net).wf(),
        grown(old(net).gates(), final(net).gates()),
        r.0@.len() == d.blocks@.len(),
        row_wf(r.0@, final(net).gates().len()),
        r.1 < final(net).gates().len(),
        forall|e: Env, i: int|
            0 <= i < d.blocks@.len() ==> #[trigger] sig_value(final(net).gates(), e, r.0@[i])
                == e.q[state_base(d) + i],
        forall|e: Env| #[trigger]
            sig_value(final(net).gates(), e, r.1) == e.q[halt_index(d) as int],
        final(net).dffs@.len() == halt_index(d) + 1,
        final(net).gates().len() <= 3 + halt_index(d),
        final(net).input_names == old(net).input_names,
        final(net).outputs == old(net).outputs,
        forall|k: int|
            0 <= k < old(net).dffs@.len() ==> #[trigger] final(net).dffs@[k] == old(net).dffs@[k],
        forall|i: int|
            0 <= i < d.blocks@.len() ==> final(net).dffs@[state_base(d) + i].name@
                == #[trigger] state_dff_name(d, i),
        final(net).dffs@[halt_index(d) as int].name@ == "halted"@,
{
    let ghost g0 = net.gates();
    let mut state_q: Vec<Sig> = Vec::new();
    proof {
        lemma_grown_refl(g0);
    }
    for i in 0..d.blocks.len()
        invariant
            net.wf(),
            halt_index(d) + 3 <= u32::MAX,
            g0 == old(net).gates(),
            grown(g0, net.gates()),
            state_q@.len() == i,
            row_wf(state_q@, net.gates().len()),
            forall|e: Env, k: int|
                0 <= k < i ==> #[trigger] sig_value(net.gates(), e, state_q@[k])
                    == e.q[state_base(d) + k],
            old(net).dffs@.len() == state_base(d),
            net.dffs@.len() == state_base(d) + i,
            net.gates().len() <= 2 + state_base(d) + i,
            net.input_names == old(net).input_names,
            net.outputs == old(net).outputs,
            forall|k: int|
                0 <= k < old(net).dffs@.len() ==> #[trigger] net.dffs@[k] == old(net).dffs@[k],
            forall|k: int|
                0 <= k < i ==> net.dffs@[state_base(d) + k].name@ == #[trigger] state_dff_name(d, k),
    {
        let ghost g1 = net.gates();
        let ghost dffs1 = net.dffs@;
        let ghost sq1 = state_q@;
        let name = state_name(&d.blocks[i].label, i);
        let (idx, q) = net.add_dff(name.as_str());
        state_q.push(q);
        proof {
            let g2 = net.gates();
            lemma_grown_trans(g0, g1, g2);
            assert forall|e: Env, k: int| 0 <= k < i + 1 implies #[trigger] sig_value(
                g2,
                e,
                state_q@[k],
            ) == e.q[state_base(d) + k] by {
                if k < i {
                    assert(state_q@[k] == sq1[k]);
                    assert(sq1[k] < g1.len());
                    assert(sig_value(g1, e, sq1[k]) == e.q[state_base(d) + k]);
                }
            }
            assert forall|k: int| 0 <= k < i + 1 implies net.dffs@[state_base(d) + k].name@
                == #[trigger] state_dff_name(d, k) by {
                if k < i {
                    assert(net.dffs@[state_base(d) + k] == dffs1[state_base(d) + k]);
                }
            }
            assert forall|k: int| 0 <= k < old(net).dffs@.len() implies #[trigger] net.dffs@[k]
                == old(net).dffs@[k] by {
                assert(net.dffs@[k] == dffs1[k]);
            }
        }
    }
    let ghost g1 = net.gates();
    let ghost dffs1 = net.dffs@;
    let (hidx, hq) = net.add_dff("halted");
    proof {
        let g2 = net.gates();
        lemma_grown_trans(g0, g1, g2);
        assert forall|e: Env, k: int| 0 <= k < d.blocks@.len() implies #[trigger] sig_value(
            g2,
            e,
            state_q@[k],
        ) == e.q[state_base(d) + k] by {
            assert(state_q@[k] < g1.len());
            assert(sig_value(g1, e, state_q@[k]) == e.q[state_base(d) + k]);
        }
        assert forall|k: int| 0 <= k < d.blocks@.len() implies net.dffs@[state_base(d) + k].name@
            == #[trigger] state_dff_name(d, k) by {
            assert(net.dffs@[state_base(d) + k] == dffs1[state_base(d) + k]);
        }
        assert forall|k: int| 0 <= k < old(net).dffs@.len() implies #[trigger] net.dffs@[k] == old(
            net,
        ).dffs@[k] by {
            assert(net.dffs@[k] == dffs1[k]);
        }
    }
    (state_q, hq)
}

/// Give flip-flops `from`, `from + 1`, ... the inputs `ds`.
fn connect(net: &mut Netlist, from: usize, ds: &Vec<Sig>)
    requires
        old(net).wf(),
        from + ds@.len() <= old(net).dffs@.len(),
        row_wf(ds@, old(net).gates().len()),
    ensures
        final(net).wf(),
        final(net).sigs == old(net).sigs,
        final(net).input_names == old(net).input_names,
        final(net).outputs == old(net).outputs,
        final(net).done == old(net).done,
        final(net).dffs@.len() == old(net).dffs@.len(),
        forall|k: int|
            0 <= k < final(net).dffs@.len() ==> (#[trigger] final(net).dffs@[k]).name == old(
                net,
            ).dffs@[k].name && final(net).dffs@[k].d == if from <= k < from + ds@.len() {
                ds@[k - from]
            } else {
                old(net).dffs@[k].d
            },
{
    for i in 0..ds.len()
        invariant
            net.wf(),
            from + ds@.len() <= net.dffs@.len(),
            row_wf(ds@, net.gates().len()),
            net.sigs == old(net).sigs,
            net.input_names == old(net).input_names,
            net.outputs == old(net).outputs,
            net.done == old(net).done,
            net.dffs@.len() == old(net).dffs@.len(),
            forall|k: int|
                0 <= k < net.dffs@.len() ==> (#[trigger] net.dffs@[k]).name == old(
                    net,
                ).dffs@[k].name && net.dffs@[k].d == if from <= k < from + i {
                    ds@[k - from]
                } else {
                    old(net).dffs@[k].d
                },
    {
        let ghost dffs1 = net.dffs@;
        let ghost gates1 = net.gates();
        assert(ds@[i as int] < net.gates().len());
        net.set_dff_d((from + i) as u32, ds[i]);
        proof {
            assert(net.gates() =~= gates1);
            assert forall|k: int| 0 <= k < net.dffs@.len() implies (
            #[trigger] net.dffs@[k]).name == old(net).dffs@[k].name && net.dffs@[k].d == if from
                <= k < from + i + 1 {
                ds@[k - from]
            } else {
                old(net).dffs@[k].d
            } by {
                if k != from + i {
                    assert(net.dffs@[k] == dffs1[k]);
                } else {
                    assert(dffs1[k].name == old(net).dffs@[k].name);
                }
            }
        }
    }
}

/// The names of the input ports.
fn port_names(d: &Design) -> (names: Vec<String>)
    ensures
        names@.len() == d.inputs@.len(),
        forall|i: int| 0 <= i < d.inputs@.len() ==> (#[trigger] names@[i])@ == d.inputs@[i].name@,
{
    let mut names: Vec<String> = Vec::new();
    for i in 0..d.inputs.len()
        invariant
            names@.len() == i,
            forall|k: int| 0 <= k < i ==> (#[trigger] names@[k])@ == d.inputs@[k].name@,
    {
        names.push(d.inputs[i].name.clone());
    }
    names
}

/// Expose register rows as outputs.
fn expose(d: &Design, net: &mut Netlist, reg_q: &Vec<Vec<Sig>>)
    requires
        old(net).wf(),
        old(net).outputs@.len() == 0,
        rows_done(d, old(net).gates(), reg_q@, d.regs@.len() as int),
        forall|k: int|
            0 <= k < d.outputs@.len() ==> (#[trigger] d.outputs@[k]).1 < d.regs@.len(),
    ensures
        final(net).wf(),
        final(net).sigs == old(net).sigs,
        final(net).input_names == old(net).input_names,
        final(net).dffs == old(net).dffs,
        final(net).done == old(net).done,
        final(net).outputs@.len() == d.outputs@.len(),
        forall|k: int|
            0 <= k < d.outputs@.len() ==> (#[trigger] final(net).outputs@[k]).0@ == d.outputs@[k].0@
                && final(net).outputs@[k].1@ == reg_q@[d.outputs@[k].1 as int]@,
{
    for i in 0..d.outputs.len()
        invariant
            net.wf(),
            rows_done(d, net.gates(), reg_q@, d.regs@.len() as int),
            forall|k: int|
                0 <= k < d.outputs@.len() ==> (#[trigger] d.outputs@[k]).1 < d.regs@.len(),
            net.sigs == old(net).sigs,
            net.input_names == old(net).input_names,
            net.dffs == old(net).dffs,
            net.done == old(net).done,
            net.outputs@.len() == i,
            forall|k: int|
                0 <= k < i ==> (#[trigger] net.outputs@[k]).0@ == d.outputs@[k].0@
                    && net.outputs@[k].1@ == reg_q@[d.outputs@[k].1 as int]@,
    {
        let ghost out1 = net.outputs@;
        let ghost gates1 = net.gates();
        let r: u32 = d.outputs[i].1;
        assert(d.outputs@[i as int].1 < d.regs@.len());
        let row = &reg_q[r as usize];
        let bits = row.clone();
        assert(bits@ =~= row@);
        let name = d.outputs[i].0.clone();
        net.outputs.push((name, bits));
        proof {
            assert(net.gates() =~= gates1);
            assert forall|k: int| 0 <= k < net.outputs@.len() implies row_wf(
                (#[trigger] net.outputs@[k]).1@,
                net.gates().len(),
            ) by {
                if k < i {
                    assert(net.outputs@[k] == out1[k]);
                } else {
                    assert(row_wf(reg_q@[r as int]@, gates1.len()));
                }
            }
        }
    }
}

/// Turn a design into gates. Whatever the flip-flops hold, a clock edge with the
/// reset lever on brings them to the machine's start; from there each edge does
/// what one cycle of the design does.
#[verifier::rlimit(40)]
pub fn blast(d: &Design) -> (net: Netlist)
    requires
        synthesizable(d),
        signal_bound(d) <= u32::MAX,
    ensures
        implements(d, &net),
        net.gates().len() <= signal_bound(d),
{
    let mut net = Netlist::new();
    net.input_names = port_names(d);
    assert(net.gates() =~= seq![Gate::One, Gate::Zero]);
    let ghost n = d.blocks@.len();
    let ghost regs_n = d.regs@.len() as int;
    let ghost upd = update_cost(d.reg_widths(), n, regs_n);
    // Allocate all state first, so combinational logic can read any Q.
    let reg_q = alloc_registers(d, &mut net);
    let ghost g1 = net.gates();
    let ghost dffs_r = net.dffs@;
    let (state_q, halted_q) = alloc_states(d, &mut net);
    let ghost g2 = net.gates();
    let ghost dffs_s = net.dffs@;
    proof {
        assert forall|r: int, b: int|
            #![trigger reg_dff_name(d, r, b)]
            0 <= r < d.regs@.len() && 0 <= b < d.regs@[r].width implies dffs_s[reg_base(
            d.reg_widths(),
            r,
        ) + b].name@ == reg_dff_name(d, r, b) by {
            let rw = d.reg_widths();
            assert(rw[r] == d.regs@[r].width);
            lemma_reg_base_le(rw, r + 1, regs_n);
            assert(dffs_s[reg_base(rw, r) + b] == dffs_r[reg_base(rw, r) + b]);
        }
        lemma_rows_done_kept(d, g1, g2, reg_q@, regs_n);
        let rw = d.reg_widths();
        assert(rows_wf(g2, reg_q@, rw)) by {
            assert forall|r: int| 0 <= r < rw.len() implies (#[trigger] reg_q@[r])@.len() == rw[r]
                && row_wf(reg_q@[r]@, g2.len()) by {}
        }
        assert(wired(d, g2, reg_q@, state_q@, halted_q));
    }
    let ghost rows = reg_q@;
    let mut b = Blaster { d, net, reg_q, cache: HashMap::new() };
    let ghost base0 = 3 + halt_index(d);
    proof {
        lemma_spent_empty(d.graph(), b.cache@, d.graph().len());
        assert(b.control(base0, state_q@, halted_q));
    }
    let ghost b0 = b;
    let halt_d: u32 = b.build_halt_flag(&state_q, halted_q, Ghost(base0));
    let ghost g3 = b.net.gates();
    let state_d = b.build_next_state(&state_q, halted_q, Ghost(base0 + 9));
    let ghost g4 = b.net.gates();
    let reg_d = b.build_register_updates(
        &state_q,
        halted_q,
        Ghost(base0 + 9 + 23 * n + 2),
    );
    let ghost g5 = b.net.gates();
    proof {
        lemma_grown_trans(g2, g3, g4);
        lemma_grown_trans(g2, g4, g5);
        lemma_grown_trans(g3, g4, g5);
        lemma_wired_kept(d, g2, g5, rows, state_q@, halted_q);
        lemma_rows_done_kept(d, g2, g5, rows, regs_n);
    }
    let Blaster { d: _, net: built, reg_q, cache: _ } = b;
    let mut net = built;
    let ghost dffs0 = net.dffs@;
    assert(dffs0 == dffs_s);
    let halt_row: Vec<Sig> = vec![halt_d];
    assert(halt_row@[0] == halt_d);
    connect(&mut net, reg_d.len() + state_d.len(), &halt_row);
    let ghost dffs1 = net.dffs@;
    assert(net.gates() =~= g5);
    assert(row_wf(state_d@, g5.len())) by {
        assert forall|k: int| 0 <= k < state_d@.len() implies (#[trigger] state_d@[k]) < g5.len() by {
            assert(state_d@[k] < g4.len());
        }
    }
    connect(&mut net, reg_d.len(), &state_d);
    let ghost dffs2 = net.dffs@;
    assert(net.gates() =~= g5);
    connect(&mut net, 0, &reg_d);
    let ghost dffs3 = net.dffs@;
    assert(net.gates() =~= g5);
    expose(d, &mut net, &reg_q);
    assert(net.gates() =~= g5);
    net.done = halted_q;
    proof {
        assert(net.gates() =~= g5);
        assert forall|k: int| 0 <= k < dffs3.len() implies (#[trigger] dffs3[k]).name
            == dffs0[k].name by {
            assert(dffs1[k].name == dffs0[k].name);
            assert(dffs2[k].name == dffs1[k].name);
        }
        lemma_blast_done(
            d,
            &net,
            rows,
            state_q@,
            halted_q,
            halt_d,
            state_d@,
            reg_d@,
            g3,
            g4,
            dffs0,
        );
    }
    net
}

proof fn lemma_spent_empty(g: Graph, cache: Map<NodeId, Vec<Sig>>, n: nat)
    requires
        forall|k: NodeId| !cache.contains_key(k),
    ensures
        spent(g, cache, n) == 0,
    decreases n,
{
    if n > 0 {
        lemma_spent_empty(g, cache, (n - 1) as nat);
    }
}

proof fn lemma_blast_done(
    d: &Design,
    net: &Netlist,
    rows: Seq<Vec<Sig>>,
    state_q: Seq<Sig>,
    halted_q: Sig,
    halt_d: Sig,
    state_d: Seq<Sig>,
    reg_d: Seq<Sig>,
    g3: Seq<Gate>,
    g4: Seq<Gate>,
    dffs0: Seq<crate::netlist::Dff>,
)
    requires
        synthesizable(d),
        net.wf(),
        wired(d, net.gates(), rows, state_q, halted_q),
        rows_done(d, net.gates(), rows, d.regs@.len() as int),
        grown(g3, net.gates()),
        grown(g4, net.gates()),
        net.dffs@.len() == halt_index(d) + 1,
        dffs0.len() == net.dffs@.len(),
        forall|k: int| 0 <= k < dffs0.len() ==> (#[trigger] net.dffs@[k]).name == dffs0[k].name,
        forall|r: int, b: int|
            #![trigger reg_dff_name(d, r, b)]
            0 <= r < d.regs@.len() && 0 <= b < d.regs@[r].width ==> dffs0[reg_base(
                d.reg_widths(),
                r,
            ) + b].name@ == reg_dff_name(d, r, b),
        forall|i: int|
            0 <= i < d.blocks@.len() ==> dffs0[state_base(d) + i].name@
                == #[trigger] state_dff_name(d, i),
        dffs0[halt_index(d) as int].name@ == "halted"@,
        reg_d.len() == state_base(d),
        state_d.len() == d.blocks@.len(),
        forall|k: int| 0 <= k < reg_d.len() ==> (#[trigger] net.dffs@[k]).d == reg_d[k],
        forall|k: int|
            reg_d.len() <= k < reg_d.len() + state_d.len() ==> (#[trigger] net.dffs@[k]).d
                == state_d[k - reg_d.len()],
        net.dffs@[halt_index(d) as int].d == halt_d,
        halt_d < g3.len(),
        row_wf(state_d, g4.len()),
        forall|e: Env| #[trigger] sig_value(g3, e, halt_d) == next_halt(d, e),
        forall|e: Env, regs: Seq<u64>, i: int|
            #![trigger sig_value(g4, e, state_d[i]), holds_regs(d, e.q, regs)]
            0 <= i < state_d.len() && holds_regs(d, e.q, regs) ==> sig_value(g4, e, state_d[i])
                == next_state(d, e, regs, i),
        forall|e: Env, regs: Seq<u64>, r: int, b: int|
            #![trigger next_bit(d, e, regs, r, b)]
            0 <= r < d.regs@.len() && 0 <= b < d.regs@[r].width && holds_regs(d, e.q, regs)
                ==> sig_value(net.gates(), e, reg_d[reg_base(d.reg_widths(), r) + b]) == next_bit(
                d,
                e,
                regs,
                r,
                b,
            ),
        net.input_names@.len() == d.inputs@.len(),
        forall|i: int|
            0 <= i < d.inputs@.len() ==> (#[trigger] net.input_names@[i])@ == d.inputs@[i].name@,
        net.outputs@.len() == d.outputs@.len(),
        forall|k: int|
            0 <= k < d.outputs@.len() ==> (#[trigger] net.outputs@[k]).0@ == d.outputs@[k].0@
                && net.outputs@[k].1@ == rows[d.outputs@[k].1 as int]@,
        net.done == halted_q,
    ensures
        implements(d, net),
{
    let rw = d.reg_widths();
    let gates = net.gates();
    let regs_n = d.regs@.len() as int;
    assert forall|r: int, b: int|
        0 <= r < regs_n && 0 <= b < d.regs@[r].width implies 0 <= #[trigger] (reg_base(rw, r) + b)
        < state_base(d) by {
        assert(rw[r] == d.regs@[r].width);
        lemma_reg_base_le(rw, r + 1, regs_n);
    }
    assert(named(d, net)) by {
        assert forall|r: int, b: int|
            #![trigger reg_dff_name(d, r, b)]
            0 <= r < d.regs@.len() && 0 <= b < d.regs@[r].width implies net.dffs@[reg_base(rw, r)
            + b].name@ == reg_dff_name(d, r, b) by {
            assert(0 <= reg_base(rw, r) + b < state_base(d));
            assert(net.dffs@[reg_base(rw, r) + b].name == dffs0[reg_base(rw, r) + b].name);
        }
        assert forall|i: int| 0 <= i < d.blocks@.len() implies net.dffs@[state_base(d) + i].name@
            == #[trigger] state_dff_name(d, i) by {
            assert(net.dffs@[state_base(d) + i].name == dffs0[state_base(d) + i].name);
        }
    }
    assert(ported(d, net)) by {
        assert forall|e: Env, k: int, b: int|
            #![trigger sig_value(gates, e, net.outputs@[k].1@[b])]
            0 <= k < d.outputs@.len() && 0 <= b < net.outputs@[k].1@.len() implies sig_value(
            gates,
            e,
            net.outputs@[k].1@[b],
        ) == e.q[reg_base(rw, d.outputs@[k].1 as int) + b] by {
            let r = d.outputs@[k].1 as int;
            assert(rows[r]@.len() == d.regs@[r].width);
            assert(sig_value(gates, e, rows[r]@[b]) == e.q[reg_base(rw, r) + b]);
        }
    }
    assert forall|e: Env, regs: Seq<u64>|
        #![trigger clocked(net, e), holds_regs(d, e.q, regs)]
        holds_regs(d, e.q, regs) implies ({
        let q2 = clocked(net, e);
        &&& forall|r: int, b: int|
            #![trigger next_bit(d, e, regs, r, b)]
            0 <= r < d.regs@.len() && 0 <= b < d.regs@[r].width ==> q2[reg_base(rw, r) + b]
                == next_bit(d, e, regs, r, b)
        &&& forall|i: int|
            0 <= i < d.blocks@.len() ==> #[trigger] q2[state_base(d) + i] == next_state(
                d,
                e,
                regs,
                i,
            )
        &&& q2[halt_index(d) as int] == next_halt(d, e)
        &&& q2.len() == halt_index(d) + 1
    }) by {
        let q2 = clocked(net, e);
        assert forall|r: int, b: int|
            #![trigger next_bit(d, e, regs, r, b)]
            0 <= r < d.regs@.len() && 0 <= b < d.regs@[r].width implies q2[reg_base(rw, r) + b]
            == next_bit(d, e, regs, r, b) by {
            let at = reg_base(rw, r) + b;
            assert(0 <= reg_base(rw, r) + b < state_base(d));
            assert(net.dffs@[at].d == reg_d[at]);
        }
        assert forall|i: int| 0 <= i < d.blocks@.len() implies #[trigger] q2[state_base(d) + i]
            == next_state(d, e, regs, i) by {
            let at = state_base(d) + i;
            assert(net.dffs@[at].d == state_d[i]);
            assert(state_d[i] < g4.len());
            assert(sig_value(gates, e, state_d[i]) == sig_value(g4, e, state_d[i]));
        }
        assert(sig_value(gates, e, halt_d) == sig_value(g3, e, halt_d));
    }
    assert forall|e: Env|
        e.reset && e.q.len() == net.dffs@.len() implies encodes(
        d,
        #[trigger] clocked(net, e),
        initial(d),
    ) by {
        let regs = decoded(d, e.q);
        lemma_decoded(d, e.q);
        assert(holds_regs(d, e.q, regs));
        lemma_reset_encodes(d, e, regs, clocked(net, e));
    }
    assert forall|e: Env, c: Config|
        #![trigger clocked(net, e), encodes(d, e.q, c)]
        !e.reset && encodes(d, e.q, c) implies encodes(d, clocked(net, e), next(d, e.ins, c)) by {
        assert(holds_regs(d, e.q, c.regs));
        lemma_step_encodes(d, e, c, clocked(net, e));
    }
}

// --- straight-line programs ----------------------------------------------

/// A single basic block that halts: no control is needed.
pub open spec fn straight_line(d: &Design) -> bool {
    d.blocks@.len() == 1 && d.blocks@[0].term is Halt
}

pub open spec fn needs_control(blocks: nat) -> Seq<char> {
    "program has "@ + decimal(blocks)
        + " basic block(s) and needs a control FSM; only straight-line programs are combinational"@
}

/// The node that output `k` shows, if its register is written at all.
pub open spec fn output_node(d: &Design, k: int) -> Option<NodeId> {
    writer(d, 0, d.outputs@[k].1 as int)
}

pub open spec fn output_width(d: &Design, k: int) -> u32 {
    match output_node(d, k) {
        Some(v) => d.graph().width(v),
        None => d.regs@[d.outputs@[k].1 as int].width,
    }
}

/// The word that output `k` shows for given inputs, registers reading zero.
pub open spec fn output_word(d: &Design, ins: Seq<u64>, k: int) -> u64 {
    match output_node(d, k) {
        Some(v) => d.graph().value(initial(d).regs, ins, v),
        None => 0,
    }
}

/// A netlist without state whose outputs are functions of the inputs.
pub open spec fn combinational(d: &Design, net: &Netlist) -> bool {
    &&& net.wf()
    &&& net.dffs@.len() == 0
    &&& net.done == 0
    &&& net.input_names@.len() == d.inputs@.len()
    &&& forall|i: int|
        0 <= i < d.inputs@.len() ==> (#[trigger] net.input_names@[i])@ == d.inputs@[i].name@
    &&& net.outputs@.len() == d.outputs@.len()
    &&& forall|k: int|
        0 <= k < d.outputs@.len() ==> (#[trigger] net.outputs@[k]).0@ == d.outputs@[k].0@
            && net.outputs@[k].1@.len() == output_width(d, k)
    &&& forall|e: Env, k: int|
        0 <= k < d.outputs@.len() ==> #[trigger] levels(net.gates(), e, net.outputs@[k].1@)
            == bits_of(output_word(d, e.ins, k), output_width(d, k) as nat)
}

/// A combinational netlist shows what the golden model's outputs hold when it has
/// halted, where each register is written at its own width.
pub proof fn lemma_combinational_matches_golden(d: &Design, net: &Netlist, e: Env, k: int)
    requires
        synthesizable(d),
        straight_line(d),
        combinational(d, net),
        0 <= k < d.outputs@.len(),
        output_width(d, k) == d.regs@[d.outputs@[k].1 as int].width,
    ensures
        next(d, e.ins, initial(d)).done,
        levels(net.gates(), e, net.outputs@[k].1@) == bits_of(
            next(d, e.ins, initial(d)).regs[d.outputs@[k].1 as int],
            d.regs@[d.outputs@[k].1 as int].width as nat,
        ),
        sig_value(net.gates(), e, net.done),
{
    let c = initial(d);
    let r = d.outputs@[k].1 as int;
    let w = d.regs@[r].width;
    assert(d.entry == 0);
    assert(block_runnable(d, d.blocks@[0]));
    assert(distinct_writes(d.blocks@[0]));
    lemma_commit_reg(d, c.regs, e.ins, d.blocks@[0].assigns@, r);
    lemma_initial_fits(d);
    match output_node(d, k) {
        Some(v) => {
            lemma_writer_in_range(d, 0, r, 0);
            lemma_value_fits(d.graph(), d.reg_widths(), d.input_widths(), c.regs, e.ins, v);
        },
        None => {},
    }
    assert(sig_value(net.gates(), e, 0u32));
}

proof fn lemma_initial_fits(d: &Design)
    requires
        synthesizable(d),
    ensures
        regs_fit(d.reg_widths(), initial(d).regs),
        forall|r: int| 0 <= r < d.regs@.len() ==> #[trigger] initial(d).regs[r] == 0,
{
    let rw = d.reg_widths();
    let regs = initial(d).regs;
    assert forall|r: int| 0 <= r < d.regs@.len() implies #[trigger] regs[r] == 0 by {
        assert(mask_of(d.regs@[r].reset, d.regs@[r].width) == 0);
    }
    assert forall|r: int| 0 <= r < rw.len() implies fits(#[trigger] regs[r], rw[r]) by {
        lemma_small(rw[r]);
    }
}

proof fn lemma_writer_in_range(d: &Design, j: int, r: int, k: int)
    requires
        runnable(d),
        0 <= j < d.blocks@.len(),
        0 <= k,
        writer_from(d.blocks@[j].assigns@, r, k) is Some,
    ensures
        writer_from(d.blocks@[j].assigns@, r, k)->0 < d.graph().len(),
    decreases d.blocks@[j].assigns@.len() - k,
{
    assert(block_runnable(d, d.blocks@[j]));
    let a = d.blocks@[j].assigns@;
    if k < a.len() {
        assert(a[k].1 < d.graph().len());
        if a[k].0 != r {
            lemma_writer_in_range(d, j, r, k + 1);
        }
    }
}

/// Blast a straight-line program into a *purely combinational* netlist.
///
/// A single basic block ending in `Halt` computes each output as a pure
/// function of the inputs, so the surrounding FSM (state vector, halt latch,
/// register hold logic) carries no information and can be dropped. What remains
/// is a circuit with no state at all, which is what the placer can physically
/// build. Registers read as their reset value, since nothing can have written
/// them yet.
pub fn blast_combinational(d: &Design) -> (r: Result<Netlist, String>)
    requires
        synthesizable(d),
        signal_bound(d) <= u32::MAX,
    ensures
        match r {
            Ok(net) => straight_line(d) && combinational(d, &net) && net.gates().len() <= signal_bound(d),
            Err(e) => !straight_line(d) && e@ == needs_control(d.blocks@.len()),
        },
{
    let stops: bool = d.blocks.len() == 1 && match d.blocks[0].term {
        Term::Halt => true,
        _ => false,
    };
    if !stops {
        let mut e = String::from_str("program has ");
        push_decimal(&mut e, d.blocks.len() as u64);
        e.append(
            " basic block(s) and needs a control FSM; only straight-line programs are combinational",
        );
        return Err(e);
    }
    let mut net = Netlist::new();
    net.input_names = port_names(d);
    assert(net.gates() =~= seq![Gate::One, Gate::Zero]);
    // Every register reads as its reset value: no cycle has elapsed.
    let mut reg_q: Vec<Vec<Sig>> = Vec::new();
    for r in 0..d.regs.len()
        invariant
            reg_q@.len() == r,
            forall|k: int|
                0 <= k < r ==> (#[trigger] reg_q@[k])@.len() == d.regs@[k].width && forall|b: int|
                    0 <= b < d.regs@[k].width ==> #[trigger] reg_q@[k]@[b] == 1u32,
    {
        let row = fill(net.zero(), d.regs[r].width as usize);
        reg_q.push(row);
    }
    let mut b = Blaster { d, net, reg_q, cache: HashMap::new() };
    let ghost zeros = initial(d).regs;
    proof {
        let rw = d.reg_widths();
        let g0 = b.net.gates();
        lemma_spent_empty(d.graph(), b.cache@, d.graph().len());
        assert forall|r: int| 0 <= r < rw.len() implies (#[trigger] b.reg_q@[r])@.len() == rw[r]
            && row_wf(b.reg_q@[r]@, g0.len()) by {
            assert forall|k: int| 0 <= k < b.reg_q@[r]@.len() implies (#[trigger] b.reg_q@[r]@[k])
                < g0.len() by {}
        }
        assert(b.inv(2));
    }
    let ghost rows = b.reg_q@;
    let mut outputs: Vec<(String, Vec<Sig>)> = Vec::new();
    let count: usize = d.outputs.len();
    for k in 0..count
        invariant
            count == d.outputs@.len(),
            straight_line(d),
            b.d == d,
            b.inv(2),
            b.reg_q@ == rows,
            zeros == initial(d).regs,
            rows.len() == d.regs@.len(),
            forall|r: int|
                0 <= r < rows.len() ==> (#[trigger] rows[r])@.len() == d.regs@[r].width && forall|
                    j: int,
                |
                    0 <= j < d.regs@[r].width ==> #[trigger] rows[r]@[j] == 1u32,
            b.net.dffs@.len() == 0,
            b.net.outputs@.len() == 0,
            b.net.input_names@.len() == d.inputs@.len(),
            forall|i: int|
                0 <= i < d.inputs@.len() ==> (#[trigger] b.net.input_names@[i])@
                    == d.inputs@[i].name@,
            outputs@.len() == k,
            forall|j: int|
                0 <= j < k ==> (#[trigger] outputs@[j]).0@ == d.outputs@[j].0@
                    && outputs@[j].1@.len() == output_width(d, j) && row_wf(
                    outputs@[j].1@,
                    b.net.gates().len(),
                ),
            forall|e: Env, j: int|
                0 <= j < k ==> #[trigger] levels(b.net.gates(), e, outputs@[j].1@) == bits_of(
                    output_word(d, e.ins, j),
                    output_width(d, j) as nat,
                ),
    {
        let ghost g1 = b.net.gates();
        let ghost outputs1 = outputs@;
        assert((d.outputs@[k as int]).1 < d.regs@.len());
        let r: u32 = d.outputs[k].1;
        assert(block_runnable(d, d.blocks@[0]));
        let bits = match first_write(&d.blocks[0].assigns, r as usize) {
            Some(v) => {
                proof {
                    lemma_writer_in_range(d, 0, r as int, 0);
                }
                b.node_bits(v, Ghost(2nat))
            },
            None => {
                proof {
                    lemma_grown_refl(g1);
                }
                fill(b.net.zero(), d.regs[r as usize].width as usize)
            },
        };
        let ghost row = bits@;
        proof {
            let g2 = b.net.gates();
            assert forall|e: Env| #[trigger] levels(g2, e, row) == bits_of(
                output_word(d, e.ins, k as int),
                output_width(d, k as int) as nat,
            ) by {
                lemma_initial_fits(d);
                let rw = d.reg_widths();
                assert(regs_read(g2, rows, rw, e, zeros)) by {
                    assert forall|q: int, j: int|
                        0 <= q < rw.len() && 0 <= j < rw[q] implies sig_value(
                        g2,
                        e,
                        #[trigger] rows[q]@[j],
                    ) == bit(zeros[q], j) by {
                        assert(rows[q]@[j] == 1u32);
                        assert(!sig_value(g2, e, 1u32));
                        lemma_small(rw[q]);
                        lemma_zero_bits(0, rw[q]);
                        assert(zeros[q] == 0);
                    }
                }
                if output_node(d, k as int) is None {
                    let w = output_width(d, k as int);
                    assert(1 <= d.regs@[r as int].width <= 64);
                    lemma_small(w);
                    lemma_zero_bits(0, w);
                    assert(!sig_value(g2, e, 1u32));
                    assert(levels(g2, e, row) =~= bits_of(0, w as nat));
                }
            }
            assert(row_wf(row, g2.len()));
            assert(row.len() == output_width(d, k as int));
        }
        let name = d.outputs[k].0.clone();
        outputs.push((name, bits));
        proof {
            let g2 = b.net.gates();
            assert forall|j: int| 0 <= j < k + 1 implies (#[trigger] outputs@[j]).0@
                == d.outputs@[j].0@ && outputs@[j].1@.len() == output_width(d, j) && row_wf(
                outputs@[j].1@,
                g2.len(),
            ) by {
                if j < k {
                    assert(outputs@[j] == outputs1[j]);
                    assert(row_wf(outputs1[j].1@, g1.len()));
                }
            }
            assert forall|e: Env, j: int| 0 <= j < k + 1 implies #[trigger] levels(
                g2,
                e,
                outputs@[j].1@,
            ) == bits_of(output_word(d, e.ins, j), output_width(d, j) as nat) by {
                if j < k {
                    assert(outputs@[j] == outputs1[j]);
                    assert(row_wf(outputs1[j].1@, g1.len()));
                    lemma_levels_kept(g1, g2, e, outputs1[j].1@);
                    assert(levels(g1, e, outputs1[j].1@) == bits_of(
                        output_word(d, e.ins, j),
                        output_width(d, j) as nat,
                    ));
                } else {
                    assert(levels(g2, e, row) == bits_of(
                        output_word(d, e.ins, k as int),
                        output_width(d, k as int) as nat,
                    ));
                }
            }
        }
    }
    proof {
        lemma_spent_bound(d.graph(), b.cache@, d.graph().len());
    }
    let Blaster { d: _, net: built, reg_q: _, cache: _ } = b;
    let mut net = built;
    let ghost g3 = net.gates();
    net.outputs = outputs;
    net.done = net.one();
    assert(net.gates() =~= g3);
    Ok(net)
}

// --- checking the bound --------------------------------------------------

/// The sum, or `u64::MAX` where it does not fit.
fn sum_up(a: u64, b: u64) -> (r: u64)
    ensures
        r == if a + b > u64::MAX {
            u64::MAX as int
        } else {
            a + b
        },
{
    match a.checked_add(b) {
        Some(x) => x,
        None => u64::MAX,
    }
}

/// `a` stands for the number `n`: exactly, or as "too large".
spec fn stands_for(a: u64, n: nat) -> bool {
    a == n || (a > u32::MAX && n > u32::MAX)
}

fn node_cost_of(d: &Design, i: NodeId) -> (c: u64)
    requires
        d.wf(),
        i < d.graph().len(),
        d.graph().typed(d.reg_widths(), d.input_widths()),
    ensures
        c == node_cost(d.graph(), i as int),
{
    let w: u64 = d.width(i) as u64;
    proof {
        let g = d.graph();
        let rw = d.reg_widths();
        let iw = d.input_widths();
        assert(typed_as(g, rw, iw, g.nodes[i as int], g.widths[i as int]));
        assert(operands_below(g.nodes[i as int], i as int));
        let o = node_operands(g.node(i));
        if o.len() > 0 {
            assert(o[0] < i);
            assert(typed_as(g, rw, iw, g.nodes[o[0] as int], g.widths[o[0] as int]));
        }
        assert(w * w <= 4096) by (nonlinear_arith)
            requires
                w <= 64,
        ;
    }
    match d.node(i) {
        Node::Input(_) => w,
        Node::Not(_) => w,
        Node::And(_, _) => 5 * w,
        Node::Or(_, _) => 5 * w,
        Node::Xor(_, _) => 5 * w,
        Node::Add(_, _) => 21 * w,
        Node::Lt(a, _) => 22 * d.width(a) as u64 + 1,
        Node::Eq(a, _) => 5 * d.width(a) as u64 + 1,
        Node::Mul(_, _) => 24 * (w * w),
        Node::Shl(_, _) => 57 * w + 3,
        Node::Shr(_, _) => 57 * w + 3,
        Node::Mux { .. } => 9 * w,
        Node::Any(_) => 2,
        _ => 0,
    }
}

/// Do the gates for a design fit into 32-bit signal numbers? Ask this before
/// [`blast`] or [`blast_combinational`].
pub fn fits_netlist(d: &Design) -> (r: bool)
    requires
        synthesizable(d),
    ensures
        r == (signal_bound(d) <= u32::MAX),
{
    let ghost rw = d.reg_widths();
    let ghost n = d.blocks@.len();
    let blocks: u64 = d.blocks.len() as u64;
    if blocks > u32::MAX as u64 {
        return false;
    }
    let mut total: u64 = 16 + 24 * blocks;
    for r in 0..d.regs.len()
        invariant
            synthesizable(d),
            rw == d.reg_widths(),
            n == d.blocks@.len(),
            blocks == n,
            blocks <= u32::MAX,
            stands_for(
                total,
                16 + 24 * n + reg_base(rw, r as int) + update_cost(rw, n, r as int),
            ),
    {
        let w: u64 = d.regs[r].width as u64;
        proof {
            assert(1 <= d.regs@[r as int].width <= 64);
            assert(rw[r as int] == w);
            assert(w * (17 + 3 * blocks) <= 64 * (17 + 3 * 0xffff_ffff)) by (nonlinear_arith)
                requires
                    w <= 64,
                    blocks <= 0xffff_ffff,
            ;
            assert(rw[r as int] as nat * (17 + 3 * n) == w * (17 + 3 * blocks)) by (nonlinear_arith)
                requires
                    rw[r as int] == w,
                    n == blocks,
            ;
            assert(w * (17 + 3 * blocks) >= 0) by (nonlinear_arith);
        }
        total = sum_up(total, w + 3 + w * (17 + 3 * blocks));
    }
    let nodes: u32 = d.node_count() as u32;
    let mut i: u32 = 0;
    let ghost regs_n = d.regs@.len() as int;
    while i < nodes
        invariant
            synthesizable(d),
            nodes == d.graph().len(),
            i <= nodes,
            stands_for(
                total,
                16 + 24 * n + reg_base(rw, regs_n) + update_cost(rw, n, regs_n) + graph_cost(
                    d.graph(),
                    i as nat,
                ),
            ),
        decreases nodes - i,
    {
        let c: u64 = node_cost_of(d, i);
        total = sum_up(total, c);
        i = i + 1;
    }
    total <= u32::MAX as u64
}

} // verus!
