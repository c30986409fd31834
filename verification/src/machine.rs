//! Cycle-accurate interpreter for the word-level design: the golden model.
//!
//! This executes the design directly. Everything downstream - the NOR netlist,
//! and ultimately the redstone itself - is held against the results this
//! produces.
use crate::bits::mask_of;
use crate::graph::{is_topo_order, needed, Dag};
use crate::ir::{mask, node_operands, BasicBlock, Design, Node, NodeId, PortDecl, RegId, Term};
use crate::ir_values::lemma_value;
use crate::text::{decimal, push_decimal, same_text};
use std::collections::HashMap;
use vstd::prelude::*;
use vstd::string::*;

verus! {

broadcast use vstd::std_specs::hash::group_hash_axioms;

#[derive(Debug, Clone)]
pub struct Machine {
    pub regs: Vec<u64>,
    pub state: u32,
    pub done: bool,
    pub cycles: u64,
}

/// Where a machine stands, but for the count of its cycles.
#[verifier::ext_equal]
pub struct Config {
    pub regs: Seq<u64>,
    pub state: u32,
    pub done: bool,
}

/// May a node be evaluated at all?
pub open spec fn node_runnable(d: &Design, n: Node) -> bool {
    match n {
        Node::Reg(r) => r < d.regs@.len(),
        Node::Bit { bit, .. } => bit < 64,
        _ => true,
    }
}

/// Does a block refer to registers, nodes and blocks that exist?
pub open spec fn block_runnable(d: &Design, b: BasicBlock) -> bool {
    &&& forall|k: int|
        0 <= k < b.assigns@.len() ==> (#[trigger] b.assigns@[k]).0 < d.regs@.len()
            && b.assigns@[k].1 < d.graph().len()
    &&& match b.term {
        Term::Jump(t) => t < d.blocks@.len(),
        Term::Branch { cond, then_b, else_b } => cond < d.graph().len() && then_b < d.blocks@.len()
            && else_b < d.blocks@.len(),
        Term::Halt => true,
    }
}

/// A design that can be executed.
pub open spec fn runnable(d: &Design) -> bool {
    &&& d.wf()
    &&& forall|i: int|
        0 <= i < d.graph().nodes.len() ==> node_runnable(d, #[trigger] d.graph().nodes[i])
    &&& forall|i: int|
        0 <= i < d.blocks@.len() ==> block_runnable(d, #[trigger] d.blocks@[i])
    &&& d.entry < d.blocks@.len()
}

/// The registers after a block's writes: every right-hand side reads `regs`.
pub open spec fn commit(
    d: &Design,
    regs: Seq<u64>,
    ins: Seq<u64>,
    assigns: Seq<(RegId, NodeId)>,
) -> Seq<u64>
    decreases assigns.len(),
{
    if assigns.len() == 0 {
        regs
    } else {
        let (r, n) = assigns.last();
        commit(d, regs, ins, assigns.drop_last()).update(
            r as int,
            mask_of(d.graph().value(regs, ins, n), d.regs@[r as int].width),
        )
    }
}

/// One clock cycle.
pub open spec fn next(d: &Design, ins: Seq<u64>, c: Config) -> Config {
    if c.done {
        c
    } else {
        let b = d.blocks@[c.state as int];
        Config {
            regs: commit(d, c.regs, ins, b.assigns@),
            state: match b.term {
                Term::Jump(t) => t,
                Term::Branch { cond, then_b, else_b } => if d.graph().value(c.regs, ins, cond)
                    & 1u64 == 1u64 {
                    then_b
                } else {
                    else_b
                },
                Term::Halt => c.state,
            },
            done: b.term is Halt,
        }
    }
}

/// `n` clock cycles.
pub open spec fn after(d: &Design, ins: Seq<u64>, c: Config, n: nat) -> Config
    decreases n,
{
    if n == 0 {
        c
    } else {
        after(d, ins, next(d, ins, c), (n - 1) as nat)
    }
}

/// How many of the next `n` cycles a machine is still running in.
pub open spec fn live_cycles(d: &Design, ins: Seq<u64>, c: Config, n: nat) -> nat
    decreases n,
{
    if n == 0 || c.done {
        0
    } else {
        1 + live_cycles(d, ins, next(d, ins, c), (n - 1) as nat)
    }
}

/// Where every machine starts: registers at their reset values, in the entry block.
pub open spec fn initial(d: &Design) -> Config {
    Config {
        regs: Seq::new(d.regs@.len(), |r: int| mask_of(d.regs@[r].reset, d.regs@[r].width)),
        state: d.entry,
        done: false,
    }
}

/// The first port called `name`, at or after `i`.
pub open spec fn port_index(ports: Seq<PortDecl>, name: Seq<char>, i: int) -> Option<int>
    decreases ports.len() - i,
{
    if i < 0 || i >= ports.len() {
        None
    } else if ports[i].name@ == name {
        Some(i)
    } else {
        port_index(ports, name, i + 1)
    }
}

/// The input values after the first `n` named ones were set, if all of those ports
/// exist; the others are zero, and a later value for a port replaces an earlier.
pub open spec fn named_inputs(d: &Design, named: Seq<(&str, u64)>, n: int) -> Option<Seq<u64>>
    decreases n,
{
    if n <= 0 {
        Some(Seq::new(d.inputs@.len(), |i: int| 0u64))
    } else {
        match (named_inputs(d, named, n - 1), port_index(d.inputs@, named[n - 1].0@, 0)) {
            (Some(vals), Some(i)) => Some(
                vals.update(i, mask_of(named[n - 1].1, d.inputs@[i].width)),
            ),
            _ => None,
        }
    }
}

/// The complaint about a port that does not exist.
pub open spec fn no_such_input(name: Seq<char>) -> Seq<char> {
    "no such input port `"@ + name + "`"@
}

/// The complaint about a machine that is still running.
pub open spec fn did_not_halt(budget: u64) -> Seq<char> {
    "did not halt within "@ + decimal(budget as nat) + " cycles (infinite loop?)"@
}

/// The named input that does not exist and comes first.
pub open spec fn first_unknown(d: &Design, named: Seq<(&str, u64)>, k: int) -> bool {
    &&& 0 <= k < named.len()
    &&& named_inputs(d, named, k) is Some
    &&& port_index(d.inputs@, named[k].0@, 0) is None
}

proof fn lemma_named_stops(d: &Design, named: Seq<(&str, u64)>, k: int, n: int)
    requires
        first_unknown(d, named, k),
        k < n,
    ensures
        named_inputs(d, named, n) is None,
    decreases n,
{
    if n > k + 1 {
        lemma_named_stops(d, named, k, n - 1);
    }
}

proof fn lemma_done_stays(d: &Design, ins: Seq<u64>, c: Config, n: nat)
    requires
        c.done,
    ensures
        after(d, ins, c, n) == c,
    decreases n,
{
    if n > 0 {
        lemma_done_stays(d, ins, c, (n - 1) as nat);
    }
}

proof fn lemma_after_push(d: &Design, ins: Seq<u64>, c: Config, n: nat)
    ensures
        after(d, ins, c, n + 1) == next(d, ins, after(d, ins, c, n)),
        live_cycles(d, ins, c, n + 1) == live_cycles(d, ins, c, n) + if after(d, ins, c, n).done {
            0nat
        } else {
            1nat
        },
    decreases n,
{
    reveal_with_fuel(after, 2);
    reveal_with_fuel(live_cycles, 2);
    if n > 0 {
        lemma_after_push(d, ins, next(d, ins, c), (n - 1) as nat);
        if c.done {
            lemma_done_stays(d, ins, c, n);
        }
    }
}

/// A machine that has halted stays as it is, however long it is clocked.
pub proof fn lemma_halted_is_final(d: &Design, ins: Seq<u64>, c: Config, n: nat, m: nat)
    requires
        after(d, ins, c, n).done,
        n <= m,
    ensures
        after(d, ins, c, m) == after(d, ins, c, n),
        live_cycles(d, ins, c, m) == live_cycles(d, ins, c, n),
    decreases m - n,
{
    if n < m {
        lemma_after_push(d, ins, c, n);
        lemma_halted_is_final(d, ins, c, n + 1, m);
    }
}

/// Values already worked out in this cycle.
spec fn memo_right(d: &Design, regs: Seq<u64>, ins: Seq<u64>, memo: Map<u32, u64>) -> bool {
    forall|n: u32| #[trigger]
        memo.contains_key(n) ==> n < d.graph().len() && memo[n] == d.graph().value(regs, ins, n)
}

fn lookup(memo: &HashMap<NodeId, u64>, x: NodeId) -> (v: u64)
    requires
        memo@.contains_key(x),
    ensures
        v == memo@[x],
{
    *memo.get(&x).unwrap()
}

impl Machine {
    pub open spec fn config(&self) -> Config {
        Config { regs: self.regs@, state: self.state, done: self.done }
    }

    /// The machine fits the design that it runs.
    pub open spec fn fits_design(&self, d: &Design) -> bool {
        &&& self.regs@.len() == d.regs@.len()
        &&& self.state < d.blocks@.len()
    }

    pub fn new(d: &Design) -> (m: Machine)
        ensures
            m.config() == initial(d),
            m.cycles == 0,
    {
        let mut regs: Vec<u64> = Vec::new();
        for i in 0..d.regs.len()
            invariant
                regs@.len() == i,
                forall|r: int|
                    0 <= r < i ==> #[trigger] regs@[r] == mask_of(d.regs@[r].reset, d.regs@[r].width),
        {
            let v: u64 = mask(d.regs[i].reset, d.regs[i].width);
            regs.push(v);
        }
        Machine { regs, state: d.entry, done: false, cycles: 0 }
    }

    /// Evaluate one node whose operands are already in `memo`.
    fn eval_node(&self, d: &Design, n: NodeId, inputs: &[u64], memo: &HashMap<NodeId, u64>) -> (v:
        u64)
        requires
            runnable(d),
            self.regs@.len() == d.regs@.len(),
            n < d.graph().len(),
            memo_right(d, self.regs@, inputs@, memo@),
            forall|k: int|
                0 <= k < node_operands(d.graph().node(n)).len() ==> memo@.contains_key(
                    #[trigger] node_operands(d.graph().node(n))[k],
                ),
        ensures
            v == d.graph().value(self.regs@, inputs@, n),
    {
        let w: u32 = d.width(n);
        proof {
            lemma_value(d.graph(), self.regs@, inputs@, n);
            assert(node_runnable(d, d.graph().nodes[n as int]));
            let o = node_operands(d.graph().node(n));
            assert(o.len() > 0 ==> memo@.contains_key(o[0]));
            assert(o.len() > 1 ==> memo@.contains_key(o[1]));
            assert(o.len() > 2 ==> memo@.contains_key(o[2]));
        }
        match d.node(n) {
            Node::Const { value, .. } => mask(value, w),
            Node::Reg(r) => self.regs[r as usize],
            Node::Input(i) => {
                let raw: u64 = if (i as usize) < inputs.len() {
                    inputs[i as usize]
                } else {
                    0
                };
                mask(raw, w)
            },
            Node::Not(a) => mask(!lookup(memo, a), w),
            Node::And(a, b) => lookup(memo, a) & lookup(memo, b),
            Node::Or(a, b) => lookup(memo, a) | lookup(memo, b),
            Node::Xor(a, b) => lookup(memo, a) ^ lookup(memo, b),
            Node::Add(a, b) => mask(lookup(memo, a).wrapping_add(lookup(memo, b)), w),
            Node::Lt(a, b) => if lookup(memo, a) < lookup(memo, b) {
                1
            } else {
                0
            },
            Node::Eq(a, b) => if lookup(memo, a) == lookup(memo, b) {
                1
            } else {
                0
            },
            Node::Mul(a, b) => mask(lookup(memo, a).wrapping_mul(lookup(memo, b)), w),
            Node::Shl(a, b) => {
                let s: u64 = lookup(memo, b);
                if s >= 64 {
                    0
                } else {
                    mask(lookup(memo, a) << s, w)
                }
            },
            Node::Shr(a, b) => {
                let s: u64 = lookup(memo, b);
                if s >= 64 {
                    0
                } else {
                    lookup(memo, a) >> s
                }
            },
            Node::Bit { src, bit } => (lookup(memo, src) >> (bit as u64)) & 1u64,
            Node::Resize { src, .. } => mask(lookup(memo, src), w),
            Node::Repeat { src, .. } => if lookup(memo, src) & 1u64 == 1u64 {
                mask(u64::MAX, w)
            } else {
                0
            },
            Node::Mux { c, t, f } => if lookup(memo, c) & 1u64 == 1u64 {
                lookup(memo, t)
            } else {
                lookup(memo, f)
            },
            Node::Any(a) => if lookup(memo, a) != 0 {
                1
            } else {
                0
            },
        }
    }

    /// Evaluate a combinational node against the current register state.
    fn eval(&self, d: &Design, id: NodeId, inputs: &[u64], memo: &mut HashMap<NodeId, u64>) -> (v:
        u64)
        requires
            runnable(d),
            self.regs@.len() == d.regs@.len(),
            id < d.graph().len(),
            memo_right(d, self.regs@, inputs@, old(memo)@),
        ensures
            v == d.graph().value(self.regs@, inputs@, id),
            memo_right(d, self.regs@, inputs@, final(memo)@),
    {
        if let Some(v) = memo.get(&id) {
            return *v;
        }
        // Evaluate in topological order so deep expression graphs do not blow
        // the native stack.

        let roots: Vec<NodeId> = vec![id];
        let order = d.topo_order(roots.as_slice());
        proof {
            assert(roots@[0] == id);
            assert(needed(d, roots@, id as int));
            assert(order@.contains(id));
        }
        for i in 0..order.len()
            invariant
                runnable(d),
                self.regs@.len() == d.regs@.len(),
                is_topo_order(d, roots@, order@),
                memo_right(d, self.regs@, inputs@, memo@),
                forall|j: int| 0 <= j < i ==> memo@.contains_key(#[trigger] order@[j]),
        {
            let n: u32 = order[i];
            if !memo.contains_key(&n) {
                proof {
                    assert(d.graph().node(n) == d.graph().nodes[order@[i as int] as int]);
                    assert forall|k: int|
                        0 <= k < node_operands(d.graph().node(n)).len() implies memo@.contains_key(
                        #[trigger] node_operands(d.graph().node(n))[k],
                    ) by {
                        let op = d.spec_operands(order@[i as int] as int)[k];
                        assert(order@.subrange(0, i as int).contains(op));
                        let j = choose|j: int|
                            0 <= j < order@.subrange(0, i as int).len() && order@.subrange(
                                0,
                                i as int,
                            )[j] == op;
                        assert(order@[j] == op);
                    }
                }
                let v: u64 = self.eval_node(d, n, inputs, memo);
                memo.insert(n, v);
            }
        }
        proof {
            let j = choose|j: int| 0 <= j < order@.len() && order@[j] == id;
            assert(memo@.contains_key(order@[j]));
        }
        lookup(memo, id)
    }

    /// Advance one clock cycle.
    pub fn step(&mut self, d: &Design, inputs: &[u64])
        requires
            runnable(d),
            old(self).fits_design(d),
            old(self).cycles < u64::MAX,
        ensures
            final(self).config() == next(d, inputs@, old(self).config()),
            final(self).fits_design(d),
            final(self).cycles == old(self).cycles + if old(self).done {
                0int
            } else {
                1
            },
    {
        if self.done {
            return;
        }
        let block = &d.blocks[self.state as usize];
        let mut memo: HashMap<NodeId, u64> = HashMap::new();
        let ghost regs0 = self.regs@;
        assert(block_runnable(d, d.blocks@[self.state as int]));

        // All right-hand sides read pre-cycle state, so compute before writing.
        let mut updates: Vec<(RegId, u64)> = Vec::new();
        for i in 0..block.assigns.len()
            invariant
                runnable(d),
                block_runnable(d, *block),
                self.regs@.len() == d.regs@.len(),
                self.regs@ == regs0,
                memo_right(d, regs0, inputs@, memo@),
                updates@.len() == i,
                forall|k: int|
                    0 <= k < i ==> (#[trigger] updates@[k]).0 == block.assigns@[k].0 && updates@[k].1
                        == mask_of(
                        d.graph().value(regs0, inputs@, block.assigns@[k].1),
                        d.regs@[block.assigns@[k].0 as int].width,
                    ),
        {
            let (r, n) = block.assigns[i];
            assert(block.assigns@[i as int] == (r, n));
            let v: u64 = self.eval(d, n, inputs, &mut memo);
            let v: u64 = mask(v, d.regs[r as usize].width);
            updates.push((r, v));
        }
        let next: u32 = match block.term {
            Term::Jump(t) => t,
            Term::Branch { cond, then_b, else_b } => {
                if self.eval(d, cond, inputs, &mut memo) & 1u64 == 1u64 {
                    then_b
                } else {
                    else_b
                }
            },
            Term::Halt => {
                self.done = true;
                self.state
            },
        };
        for i in 0..updates.len()
            invariant
                block_runnable(d, *block),
                regs0.len() == d.regs@.len(),
                updates@.len() == block.assigns@.len(),
                self.regs@ == commit(d, regs0, inputs@, block.assigns@.take(i as int)),
                self.regs@.len() == regs0.len(),
                forall|k: int|
                    0 <= k < updates@.len() ==> (#[trigger] updates@[k]).0 == block.assigns@[k].0
                        && updates@[k].1 == mask_of(
                        d.graph().value(regs0, inputs@, block.assigns@[k].1),
                        d.regs@[block.assigns@[k].0 as int].width,
                    ),
                self.done == (block.term is Halt),
                self.state == old(self).state,
                self.cycles == old(self).cycles,
        {
            let (r, v) = updates[i];
            assert(updates@[i as int] == (r, v));
            assert(block.assigns@[i as int].0 == r);
            self.regs.set(r as usize, v);
            proof {
                let t = block.assigns@.take(i + 1);
                assert(t.drop_last() =~= block.assigns@.take(i as int));
                assert(t.last() == block.assigns@[i as int]);
            }
        }
        assert(block.assigns@.take(block.assigns@.len() as int) =~= block.assigns@);
        self.state = next;
        self.cycles = self.cycles + 1;
    }

    /// Run to completion. Errors if the machine does not halt within `budget`,
    /// which is what an infinite loop in the source looks like from here.
    pub fn run(&mut self, d: &Design, inputs: &[u64], budget: u64) -> (r: Result<u64, String>)
        requires
            runnable(d),
            old(self).fits_design(d),
            old(self).cycles + budget <= u64::MAX,
        ensures
            final(self).config() == after(d, inputs@, old(self).config(), budget as nat),
            final(self).fits_design(d),
            final(self).cycles == old(self).cycles + live_cycles(
                d,
                inputs@,
                old(self).config(),
                budget as nat,
            ),
            match r {
                Ok(n) => final(self).done && n == final(self).cycles,
                Err(e) => !final(self).done && e@ == did_not_halt(budget),
            },
    {
        let mut i: u64 = 0;
        while i < budget
            invariant
                runnable(d),
                self.fits_design(d),
                i <= budget,
                self.config() == after(d, inputs@, old(self).config(), i as nat),
                self.cycles == old(self).cycles + live_cycles(
                    d,
                    inputs@,
                    old(self).config(),
                    i as nat,
                ),
                self.cycles <= old(self).cycles + i,
                old(self).cycles + budget <= u64::MAX,
            decreases budget - i,
        {
            if self.done {
                proof {
                    lemma_halted_is_final(
                        d,
                        inputs@,
                        old(self).config(),
                        i as nat,
                        budget as nat,
                    );
                }
                return Ok(self.cycles);
            }
            proof {
                lemma_after_push(d, inputs@, old(self).config(), i as nat);
            }
            self.step(d, inputs);
            i = i + 1;
        }
        if self.done {
            Ok(self.cycles)
        } else {
            let mut e = String::from_str("did not halt within ");
            push_decimal(&mut e, budget);
            e.append(" cycles (infinite loop?)");
            Err(e)
        }
    }

    /// The value of the first output called `name`.
    pub fn output(&self, d: &Design, name: &str) -> (r: Option<u64>)
        requires
            forall|k: int|
                0 <= k < d.outputs@.len() ==> (#[trigger] d.outputs@[k]).1 < self.regs@.len(),
        ensures
            match r {
                Some(v) => exists|k: int| #[trigger]
                    first_output(d, name@, k) && v == self.regs@[d.outputs@[k].1 as int],
                None => forall|k: int| 0 <= k < d.outputs@.len() ==> (#[trigger] d.outputs@[k]).0@ != name@,
            },
    {
        let mut i: usize = 0;
        while i < d.outputs.len()
            invariant
                i <= d.outputs@.len(),
                forall|k: int| 0 <= k < i ==> (#[trigger] d.outputs@[k]).0@ != name@,
                forall|k: int|
                    0 <= k < d.outputs@.len() ==> (#[trigger] d.outputs@[k]).1 < self.regs@.len(),
            decreases d.outputs@.len() - i,
        {
            if same_text(d.outputs[i].0.as_str(), name) {
                assert(first_output(d, name@, i as int));
                return Some(self.regs[d.outputs[i].1 as usize]);
            }
            i = i + 1;
        }
        None
    }
}

/// Output `k` is the first one called `name`.
pub open spec fn first_output(d: &Design, name: Seq<char>, k: int) -> bool {
    &&& 0 <= k < d.outputs@.len()
    &&& d.outputs@[k].0@ == name
    &&& forall|j: int| 0 <= j < k ==> (#[trigger] d.outputs@[j]).0@ != name
}

/// Where `name` stands among the ports.
fn find_port(ports: &Vec<PortDecl>, name: &str) -> (r: Option<usize>)
    ensures
        match r {
            Some(k) => port_index(ports@, name@, 0) == Some(k as int) && k < ports@.len(),
            None => port_index(ports@, name@, 0) is None,
        },
{
    let mut i: usize = 0;
    while i < ports.len()
        invariant
            i <= ports@.len(),
            port_index(ports@, name@, 0) == port_index(ports@, name@, i as int),
        decreases ports@.len() - i,
    {
        if same_text(ports[i].name.as_str(), name) {
            return Some(i);
        }
        i = i + 1;
    }
    None
}

/// Execute a design with named inputs.
pub fn run_design(d: &Design, inputs: &[(&str, u64)], budget: u64) -> (r: Result<
    (Machine, u64),
    String,
>)
    requires
        runnable(d),
    ensures
        match named_inputs(d, inputs@, inputs@.len() as int) {
            Some(vals) => {
                let end = after(d, vals, initial(d), budget as nat);
                match r {
                    Ok((m, n)) => end.done && m.config() == end && m.cycles == n && n == live_cycles(
                        d,
                        vals,
                        initial(d),
                        budget as nat,
                    ),
                    Err(e) => !end.done && e@ == did_not_halt(budget),
                }
            },
            None => match r {
                Ok(_) => false,
                Err(e) => exists|k: int| #[trigger]
                    first_unknown(d, inputs@, k) && e@ == no_such_input(inputs@[k].0@),
            },
        },
{
    let mut vals: Vec<u64> = vec![0u64; d.inputs.len()];
    assert(vals@ =~= Seq::new(d.inputs@.len(), |i: int| 0u64));
    for k in 0..inputs.len()
        invariant
            vals@.len() == d.inputs@.len(),
            named_inputs(d, inputs@, k as int) == Some(vals@),
    {
        let (name, v) = inputs[k];
        assert(inputs@[k as int] == (name, v));
        match find_port(&d.inputs, name) {
            Some(i) => {
                let m: u64 = mask(v, d.inputs[i].width);
                vals.set(i, m);
            },
            None => {
                let mut e = String::from_str("no such input port `");
                e.append(name);
                e.append("`");
                proof {
                    assert(first_unknown(d, inputs@, k as int));
                    lemma_named_stops(d, inputs@, k as int, inputs@.len() as int);
                }
                return Err(e);
            },
        }
    }
    let mut m = Machine::new(d);
    match m.run(d, vals.as_slice(), budget) {
        Ok(cycles) => Ok((m, cycles)),
        Err(e) => Err(e),
    }
}

} // verus!
