//! Gate-level netlist over a single logic primitive: the multi-input NOR.
//!
//! NOR is chosen because it is exactly what redstone gives you for free. Several
//! signals feeding one dust net OR together (dust takes the strongest source),
//! and a torch attached to the block under that net inverts it. So an
//! *arbitrary fan-in* NOR is one torch.
//!
//! Sequential state lives in `Dff`s, which are treated as opaque macro cells.
//! They are the only cyclic element, so the combinational part of the netlist is
//! always a DAG - which is what lets the placer levelize it.
use crate::bits::{bit, word};
use crate::graph::{is_topo_order, needed, topo_order, walked, Dag};
use crate::text::same_text;
use std::collections::HashMap;
use vstd::prelude::*;

verus! {

broadcast use vstd::std_specs::hash::group_hash_axioms;

pub type Sig = u32;

#[derive(Debug, Clone, PartialEq, Eq, Hash)]
pub enum Src {
    /// Constant true. Physically a torch on a block nothing ever powers.
    One,
    /// Constant false, derived by inverting `One`.
    Zero,
    /// Bit `bit` of input port `port`.
    Input { port: u32, bit: u32 },
    /// The global reset lever.
    Reset,
    /// Output of flip-flop `0..dffs.len()`.
    DffQ(u32),
    /// NOR of the listed signals. Inputs are sorted and deduplicated so
    /// structurally identical gates hash-cons together.
    Nor(Vec<Sig>),
}

/// What drives a signal.
#[verifier::ext_equal]
pub enum Gate {
    One,
    Zero,
    Input { port: u32, bit: u32 },
    Reset,
    DffQ(u32),
    Nor(Seq<Sig>),
}

impl View for Src {
    type V = Gate;

    open spec fn view(&self) -> Gate {
        match self {
            Src::One => Gate::One,
            Src::Zero => Gate::Zero,
            Src::Input { port, bit } => Gate::Input { port: *port, bit: *bit },
            Src::Reset => Gate::Reset,
            Src::DffQ(i) => Gate::DffQ(*i),
            Src::Nor(v) => Gate::Nor(v@),
        }
    }
}

#[derive(Debug, Clone)]
pub struct Dff {
    pub name: String,
    /// The signal sampled on the clock edge. Filled in after construction,
    /// because a flip-flop's D almost always depends on its own Q.
    pub d: Sig,
}

/// Finds a signal by what drives it.
#[derive(Debug)]
pub struct SigIndex {
    buckets: HashMap<u64, Vec<Sig>>,
}

#[derive(Debug)]
pub struct Netlist {
    pub sigs: Vec<Src>,
    pub index: SigIndex,
    pub dffs: Vec<Dff>,
    /// Input port names, indexed by the `port` field of [`Src::Input`].
    pub input_names: Vec<String>,
    /// Output ports, least-significant bit first.
    pub outputs: Vec<(String, Vec<Sig>)>,
    /// Asserted when the machine has halted.
    pub done: Sig,
}

// --- what signals mean ---------------------------------------------------

/// What the signals depend on from outside the combinational network.
pub struct Env {
    /// Flip-flop outputs.
    pub q: Seq<bool>,
    /// Input port values.
    pub ins: Seq<u64>,
    /// The reset lever.
    pub reset: bool,
}

/// The value on an input port; a port that nothing drives reads zero.
pub open spec fn port_value(ins: Seq<u64>, port: u32) -> u64 {
    if port < ins.len() {
        ins[port as int]
    } else {
        0
    }
}

/// The level of a signal.
pub open spec fn sig_value(gates: Seq<Gate>, e: Env, s: Sig) -> bool
    decreases s,
{
    match gates[s as int] {
        Gate::One => true,
        Gate::Zero => false,
        Gate::Input { port, bit } => crate::bits::bit(port_value(e.ins, port), bit as int),
        Gate::Reset => e.reset,
        Gate::DffQ(i) => e.q[i as int],
        Gate::Nor(v) => forall|k: int|
            0 <= k < v.len() ==> !((#[trigger] v[k]) < s && sig_value(gates, e, v[k])),
    }
}

/// Is any of these signals high?
pub open spec fn any_high(gates: Seq<Gate>, e: Env, v: Seq<Sig>) -> bool {
    exists|k: int| 0 <= k < v.len() && sig_value(gates, e, #[trigger] v[k])
}

/// The levels of a row of signals.
pub open spec fn levels(gates: Seq<Gate>, e: Env, v: Seq<Sig>) -> Seq<bool> {
    Seq::new(v.len(), |k: int| sig_value(gates, e, v[k]))
}

pub open spec fn gate_operands(g: Gate) -> Seq<Sig> {
    match g {
        Gate::Nor(v) => v,
        _ => seq![],
    }
}

/// `a` grew into `b`: signals keep their numbers, and so their levels.
pub open spec fn grown(a: Seq<Gate>, b: Seq<Gate>) -> bool {
    &&& a.len() <= b.len()
    &&& forall|i: int| 0 <= i < a.len() ==> #[trigger] b[i] == a[i]
    &&& forall|e: Env, s: Sig|
        s < a.len() ==> #[trigger] sig_value(b, e, s) == sig_value(a, e, s)
}

/// Signals come after what drives them; the constants come first.
pub open spec fn gates_wf(gates: Seq<Gate>, dffs: nat) -> bool {
    &&& 2 <= gates.len() <= u32::MAX
    &&& gates[0] == Gate::One
    &&& gates[1] == Gate::Zero
    &&& gates.no_duplicates()
    &&& forall|i: int| 0 <= i < gates.len() ==> gate_wf(#[trigger] gates[i], i, dffs)
}

pub open spec fn gate_wf(g: Gate, i: int, dffs: nat) -> bool {
    match g {
        Gate::Input { bit, .. } => bit < 64,
        Gate::DffQ(k) => k < dffs,
        Gate::Nor(v) => canonical(v) && forall|k: int| 0 <= k < v.len() ==> (#[trigger] v[k]) < i,
        _ => true,
    }
}

/// Sorted, without repetitions and constants.
pub open spec fn canonical(v: Seq<Sig>) -> bool {
    &&& forall|i: int, j: int| 0 <= i < j < v.len() ==> (#[trigger] v[i]) < (#[trigger] v[j])
    &&& forall|i: int| 0 <= i < v.len() ==> (#[trigger] v[i]) >= 2
}

/// `v` is the canonical row of the signals in `inputs` that are not constant.
pub open spec fn canonical_of(inputs: Seq<Sig>, v: Seq<Sig>) -> bool {
    &&& canonical(v)
    &&& forall|x: Sig| #[trigger] v.contains(x) <==> inputs.contains(x) && x >= 2
}

/// The canonical row of the signals in `inputs`.
pub open spec fn canon(inputs: Seq<Sig>) -> Seq<Sig> {
    choose|v: Seq<Sig>| canonical_of(inputs, v)
}

/// There is only one canonical row of given signals.
pub proof fn lemma_canonical_unique(inputs: Seq<Sig>, v: Seq<Sig>)
    requires
        canonical_of(inputs, v),
    ensures
        canon(inputs) == v,
{
    let c = canon(inputs);
    assert(canonical_of(inputs, c));
    assert forall|x: Sig| v.contains(x) <==> c.contains(x) by {}
    lemma_increasing_same(v, c);
}

proof fn lemma_increasing_same(a: Seq<Sig>, b: Seq<Sig>)
    requires
        canonical(a),
        canonical(b),
        forall|x: Sig| a.contains(x) <==> b.contains(x),
    ensures
        a == b,
    decreases a.len(),
{
    if a.len() == 0 {
        if b.len() > 0 {
            assert(b.contains(b[0]));
        }
        assert(a =~= b);
    } else {
        assert(a.contains(a.last()));
        let k = choose|k: int| 0 <= k < b.len() && b[k] == a.last();
        assert(b.contains(b.last()));
        let m = choose|m: int| 0 <= m < a.len() && a[m] == b.last();
        assert(a.last() == b.last()) by {
            if k < b.len() - 1 {
                assert(b[k] < b[b.len() - 1]);
                if m < a.len() - 1 {
                    assert(a[m] < a[a.len() - 1]);
                }
            }
        }
        let a1 = a.drop_last();
        let b1 = b.drop_last();
        assert forall|x: Sig| a1.contains(x) <==> b1.contains(x) by {
            if a1.contains(x) {
                let i = choose|i: int| 0 <= i < a1.len() && a1[i] == x;
                assert(a[i] == x && a[i] < a[a.len() - 1]);
                assert(a.contains(x));
                let j = choose|j: int| 0 <= j < b.len() && b[j] == x;
                assert(b1[j] == x);
            }
            if b1.contains(x) {
                let i = choose|i: int| 0 <= i < b1.len() && b1[i] == x;
                assert(b[i] == x && b[i] < b[b.len() - 1]);
                assert(b.contains(x));
                let j = choose|j: int| 0 <= j < a.len() && a[j] == x;
                assert(a1[j] == x);
            }
        }
        lemma_increasing_same(a1, b1);
        assert(a =~= a1.push(a.last()));
        assert(b =~= b1.push(b.last()));
    }
}

// --- how gates are built -------------------------------------------------

/// The signal that `g` drives: the one it drives already, or the next free one.
pub open spec fn intern_gate(gates: Seq<Gate>, g: Gate) -> (Seq<Gate>, Sig) {
    if gates.contains(g) {
        (gates, gates.index_of(g) as u32)
    } else {
        (gates.push(g), gates.len() as u32)
    }
}

pub open spec fn nor_gate(gates: Seq<Gate>, inputs: Seq<Sig>) -> (Seq<Gate>, Sig) {
    if inputs.contains(0) {
        (gates, 1)
    } else if canon(inputs).len() == 0 {
        (gates, 0)
    } else {
        intern_gate(gates, Gate::Nor(canon(inputs)))
    }
}

pub open spec fn not_gate(gates: Seq<Gate>, a: Sig) -> (Seq<Gate>, Sig) {
    match gates[a as int] {
        Gate::Nor(v) => if v.len() == 1 {
            (gates, v[0])
        } else {
            nor_gate(gates, seq![a])
        },
        _ => nor_gate(gates, seq![a]),
    }
}

pub open spec fn or_gate(gates: Seq<Gate>, xs: Seq<Sig>) -> (Seq<Gate>, Sig) {
    let (g, n) = nor_gate(gates, xs);
    not_gate(g, n)
}

pub open spec fn and_gate(gates: Seq<Gate>, a: Sig, b: Sig) -> (Seq<Gate>, Sig) {
    let (g1, na) = not_gate(gates, a);
    let (g2, nb) = not_gate(g1, b);
    nor_gate(g2, seq![na, nb])
}

/// The complements of the first `n` signals.
pub open spec fn not_gates(gates: Seq<Gate>, xs: Seq<Sig>, n: int) -> (Seq<Gate>, Seq<Sig>)
    decreases n,
{
    if n <= 0 {
        (gates, seq![])
    } else {
        let (g, inv) = not_gates(gates, xs, n - 1);
        let (g2, x) = not_gate(g, xs[n - 1]);
        (g2, inv.push(x))
    }
}

pub open spec fn and_all_gate(gates: Seq<Gate>, xs: Seq<Sig>) -> (Seq<Gate>, Sig) {
    let (g, inv) = not_gates(gates, xs, xs.len() as int);
    nor_gate(g, inv)
}

pub open spec fn xor_gate(gates: Seq<Gate>, a: Sig, b: Sig) -> (Seq<Gate>, Sig) {
    if a == b {
        (gates, 1)
    } else {
        let (g1, n) = nor_gate(gates, seq![a, b]);
        let (g2, c) = and_gate(g1, a, b);
        nor_gate(g2, seq![n, c])
    }
}

pub open spec fn mux_gate(gates: Seq<Gate>, c: Sig, t: Sig, f: Sig) -> (Seq<Gate>, Sig) {
    if t == f || c == 0 {
        (gates, t)
    } else if c == 1 {
        (gates, f)
    } else {
        let (g1, nc) = not_gate(gates, c);
        let (g2, a) = and_gate(g1, c, t);
        let (g3, b) = and_gate(g2, nc, f);
        or_gate(g3, seq![a, b])
    }
}

pub open spec fn maj3_gate(gates: Seq<Gate>, a: Sig, b: Sig, c: Sig) -> (Seq<Gate>, Sig) {
    let (g1, ab) = and_gate(gates, a, b);
    let (g2, ac) = and_gate(g1, a, c);
    let (g3, bc) = and_gate(g2, b, c);
    or_gate(g3, seq![ab, ac, bc])
}

pub open spec fn xor3_gate(gates: Seq<Gate>, a: Sig, b: Sig, c: Sig) -> (Seq<Gate>, Sig) {
    let (g, x) = xor_gate(gates, a, b);
    xor_gate(g, x, c)
}

// --- lemmas --------------------------------------------------------------

proof fn lemma_grown(a: Seq<Gate>, b: Seq<Gate>)
    requires
        a.len() <= b.len(),
        forall|i: int| 0 <= i < a.len() ==> #[trigger] b[i] == a[i],
    ensures
        grown(a, b),
{
    assert forall|e: Env, s: Sig| s < a.len() implies #[trigger] sig_value(b, e, s) == sig_value(
        a,
        e,
        s,
    ) by {
        lemma_level_kept(a, b, e, s);
    }
}

proof fn lemma_level_kept(a: Seq<Gate>, b: Seq<Gate>, e: Env, s: Sig)
    requires
        a.len() <= b.len(),
        forall|i: int| 0 <= i < a.len() ==> #[trigger] b[i] == a[i],
        s < a.len(),
    ensures
        sig_value(b, e, s) == sig_value(a, e, s),
    decreases s,
{
    assert(b[s as int] == a[s as int]);
    if let Gate::Nor(v) = a[s as int] {
        assert forall|k: int| 0 <= k < v.len() && (#[trigger] v[k]) < s implies sig_value(b, e, v[k])
            == sig_value(a, e, v[k]) by {
            lemma_level_kept(a, b, e, v[k]);
        }
        assert(sig_value(b, e, s) <==> forall|k: int|
            0 <= k < v.len() ==> !((#[trigger] v[k]) < s && sig_value(b, e, v[k])));
        assert(sig_value(a, e, s) <==> forall|k: int|
            0 <= k < v.len() ==> !((#[trigger] v[k]) < s && sig_value(a, e, v[k])));
    }
}

pub proof fn lemma_grown_trans(a: Seq<Gate>, b: Seq<Gate>, c: Seq<Gate>)
    requires
        grown(a, b),
        grown(b, c),
    ensures
        grown(a, c),
{
    assert forall|i: int| 0 <= i < a.len() implies #[trigger] c[i] == a[i] by {
        assert(b[i] == a[i]);
    }
    lemma_grown(a, c);
}

/// Growing leaves the levels of a row alone.
pub proof fn lemma_levels_kept(a: Seq<Gate>, b: Seq<Gate>, e: Env, v: Seq<Sig>)
    requires
        grown(a, b),
        forall|k: int| 0 <= k < v.len() ==> (#[trigger] v[k]) < a.len(),
    ensures
        levels(b, e, v) == levels(a, e, v),
        any_high(b, e, v) == any_high(a, e, v),
{
    assert forall|k: int| 0 <= k < v.len() implies sig_value(b, e, #[trigger] v[k]) == sig_value(
        a,
        e,
        v[k],
    ) by {}
    assert(levels(b, e, v) =~= levels(a, e, v));
    if any_high(b, e, v) {
        let k = choose|k: int| 0 <= k < v.len() && sig_value(b, e, #[trigger] v[k]);
        assert(sig_value(a, e, v[k]));
    }
    if any_high(a, e, v) {
        let k = choose|k: int| 0 <= k < v.len() && sig_value(a, e, #[trigger] v[k]);
        assert(sig_value(b, e, v[k]));
    }
}

/// The level of a canonical NOR is the complement of an OR over its inputs.
proof fn lemma_nor_level(gates: Seq<Gate>, dffs: nat, s: Sig, inputs: Seq<Sig>)
    requires
        gates_wf(gates, dffs),
        s < gates.len(),
        gates[s as int] == Gate::Nor(canon(inputs)),
        canonical_of(inputs, canon(inputs)),
        forall|k: int| 0 <= k < inputs.len() ==> (#[trigger] inputs[k]) < gates.len(),
        !inputs.contains(0),
    ensures
        forall|e: Env| #[trigger] sig_value(gates, e, s) == !any_high(gates, e, inputs),
{
    let v = canon(inputs);
    assert(gate_wf(gates[s as int], s as int, dffs));
    assert forall|e: Env| #[trigger] sig_value(gates, e, s) == !any_high(gates, e, inputs) by {
        if any_high(gates, e, inputs) {
            let k = choose|k: int| 0 <= k < inputs.len() && sig_value(gates, e, #[trigger] inputs[k]);
            assert(inputs.contains(inputs[k]));
            assert(inputs[k] != 1);
            assert(v.contains(inputs[k]));
            let j = choose|j: int| 0 <= j < v.len() && v[j] == inputs[k];
            assert(v[j] < s);
        }
        if !sig_value(gates, e, s) {
            let j = choose|j: int|
                0 <= j < v.len() && (#[trigger] v[j]) < s && sig_value(gates, e, v[j]);
            assert(v.contains(v[j]));
            let k = choose|k: int| 0 <= k < inputs.len() && inputs[k] == v[j];
            assert(sig_value(gates, e, inputs[k]));
        }
    }
}

// --- finding signals -----------------------------------------------------

spec fn row_key(v: Seq<Sig>) -> u64
    decreases v.len(),
{
    if v.len() == 0 {
        7
    } else {
        ((row_key(v.drop_last()) * 31 + v.last()) % 0x00ff_ffff_ffff_ffd5) as u64
    }
}

spec fn gate_key(g: Gate) -> u64 {
    match g {
        Gate::One => 1,
        Gate::Zero => 2,
        Gate::Reset => 3,
        Gate::Input { port, bit } => (port * 0x1_0000_0000 + bit) as u64,
        Gate::DffQ(i) => (i + 0x100_0000_0000) as u64,
        Gate::Nor(v) => row_key(v),
    }
}

fn src_key(s: &Src) -> (k: u64)
    ensures
        k == gate_key(s@),
{
    match s {
        Src::One => 1,
        Src::Zero => 2,
        Src::Reset => 3,
        Src::Input { port, bit } => (*port as u64) * 0x1_0000_0000 + *bit as u64,
        Src::DffQ(i) => *i as u64 + 0x100_0000_0000,
        Src::Nor(v) => {
            let mut h: u64 = 7;
            for i in 0..v.len()
                invariant
                    h == row_key(v@.take(i as int)),
                    h < 0x00ff_ffff_ffff_ffd5,
            {
                assert(v@.take(i + 1).drop_last() =~= v@.take(i as int));
                h = (h * 31 + v[i] as u64) % 0x00ff_ffff_ffff_ffd5;
            }
            assert(v@.take(v@.len() as int) =~= v@);
            h
        },
    }
}

fn same_row(a: &Vec<Sig>, b: &Vec<Sig>) -> (r: bool)
    ensures
        r == (a@ == b@),
{
    if a.len() != b.len() {
        return false;
    }
    for i in 0..a.len()
        invariant
            a@.len() == b@.len(),
            forall|k: int| 0 <= k < i ==> a@[k] == b@[k],
    {
        if a[i] != b[i] {
            assert(a@[i as int] != b@[i as int]);
            return false;
        }
    }
    assert(a@ =~= b@);
    true
}

fn same_src(a: &Src, b: &Src) -> (r: bool)
    ensures
        r == (a@ == b@),
{
    match (a, b) {
        (Src::One, Src::One) => true,
        (Src::Zero, Src::Zero) => true,
        (Src::Reset, Src::Reset) => true,
        (Src::Input { port: p, bit: x }, Src::Input { port: q, bit: y }) => *p == *q && *x == *y,
        (Src::DffQ(i), Src::DffQ(j)) => *i == *j,
        (Src::Nor(v), Src::Nor(w)) => same_row(v, w),
        _ => false,
    }
}

impl SigIndex {
    /// Every signal is listed under the key of its gate.
    pub closed spec fn knows(&self, gates: Seq<Gate>) -> bool {
        &&& forall|i: int|
            0 <= i < gates.len() ==> self.buckets@.contains_key(gate_key(#[trigger] gates[i]))
                && self.buckets@[gate_key(gates[i])]@.contains(i as u32)
        &&& forall|k: u64, j: int|
            self.buckets@.contains_key(k) && 0 <= j < self.buckets@[k]@.len()
                ==> #[trigger] self.buckets@[k]@[j] < gates.len()
    }
}

impl Default for Netlist {
    /// Nothing at all, not even the constants.
    fn default() -> (n: Netlist)
        ensures
            n.sigs@.len() == 0,
            n.gates().len() == 0,
            n.dffs@.len() == 0,
            n.input_names@.len() == 0,
            n.outputs@.len() == 0,
            n.done == 0,
    {
        Netlist {
            sigs: Vec::new(),
            index: SigIndex { buckets: HashMap::new() },
            dffs: Vec::new(),
            input_names: Vec::new(),
            outputs: Vec::new(),
            done: 0,
        }
    }
}

impl Netlist {
    pub open spec fn gates(&self) -> Seq<Gate> {
        Seq::new(self.sigs@.len(), |i: int| self.sigs@[i]@)
    }

    /// The invariant of every netlist.
    pub open spec fn wf(&self) -> bool {
        &&& gates_wf(self.gates(), self.dffs@.len())
        &&& self.index.knows(self.gates())
        &&& self.dffs@.len() <= u32::MAX
        &&& self.done < self.gates().len()
        &&& forall|i: int| 0 <= i < self.dffs@.len() ==> (#[trigger] self.dffs@[i]).d < self.gates().len()
        &&& forall|i: int|
            0 <= i < self.outputs@.len() ==> row_wf((#[trigger] self.outputs@[i]).1@, self.gates().len())
    }

    /// Is there room for `k` more signals?
    pub open spec fn room(&self, k: nat) -> bool {
        self.gates().len() + k <= u32::MAX
    }

    /// What building gates does: signals may be added, all else stays.
    pub open spec fn only_grew(&self, later: &Netlist) -> bool {
        &&& grown(self.gates(), later.gates())
        &&& later.dffs == self.dffs
        &&& later.input_names == self.input_names
        &&& later.outputs == self.outputs
        &&& later.done == self.done
        &&& later.wf()
    }

    pub fn new() -> (n: Netlist)
        ensures
            n.wf(),
            n.gates() == seq![Gate::One, Gate::Zero],
            n.dffs@.len() == 0,
            n.input_names@.len() == 0,
            n.outputs@.len() == 0,
            n.done == 1,
    {
        let mut buckets: HashMap<u64, Vec<Sig>> = HashMap::new();
        let first: Vec<Sig> = vec![0];
        let second: Vec<Sig> = vec![1];
        assert(first@[0] == 0u32 && second@[0] == 1u32);
        buckets.insert(1, first);
        buckets.insert(2, second);
        let n = Netlist {
            sigs: vec![Src::One, Src::Zero],
            index: SigIndex { buckets },
            dffs: Vec::new(),
            input_names: Vec::new(),
            outputs: Vec::new(),
            done: 1,
        };
        proof {
            assert(n.sigs@.len() == 2);
            assert(n.gates() =~= seq![Gate::One, Gate::Zero]);
        }
        n
    }

    fn intern(&mut self, s: Src) -> (id: Sig)
        requires
            old(self).wf(),
            old(self).room(1),
            gate_wf(s@, old(self).gates().len() as int, old(self).dffs@.len()),
        ensures
            old(self).only_grew(final(self)),
            (final(self).gates(), id) == intern_gate(old(self).gates(), s@),
            id < final(self).gates().len(),
            final(self).gates()[id as int] == s@,
            final(self).gates().len() <= old(self).gates().len() + 1,
    {
        let key: u64 = src_key(&s);
        let ghost g0 = self.gates();
        if let Some(bucket) = self.index.buckets.get(&key) {
            for j in 0..bucket.len()
                invariant
                    self.wf(),
                    g0 == self.gates(),
                    *old(self) == *self,
                    key == gate_key(s@),
                    self.index.buckets@.contains_key(key),
                    *bucket == self.index.buckets@[key],
                    forall|k: int| 0 <= k < j ==> g0[(#[trigger] bucket@[k]) as int] != s@,
            {
                let id: u32 = bucket[j];
                assert(self.index.buckets@[key]@[j as int] < g0.len());
                if same_src(&self.sigs[id as usize], &s) {
                    proof {
                        assert(g0[id as int] == s@);
                        assert(g0.contains(s@));
                        assert(g0.index_of(s@) == id);
                        lemma_grown(g0, g0);
                    }
                    return id;
                }
                assert(g0[id as int] != s@);
            }
        }
        proof {
            if g0.contains(s@) {
                let i = choose|i: int| 0 <= i < g0.len() && g0[i] == s@;
                assert(self.index.buckets@.contains_key(gate_key(g0[i])));
                let b = self.index.buckets@[key]@;
                assert(b.contains(i as u32));
                let j = choose|j: int| 0 <= j < b.len() && b[j] == i as u32;
                assert(false);
            }
        }
        let id: u32 = self.sigs.len() as u32;
        let ghost b0 = self.index.buckets@;
        let mut bucket: Vec<Sig> = match self.index.buckets.remove(&key) {
            Some(b) => b,
            None => Vec::new(),
        };
        let ghost row0 = bucket@;
        bucket.push(id);
        let ghost row1 = bucket@;
        self.index.buckets.insert(key, bucket);
        self.sigs.push(s);
        proof {
            let g1 = self.gates();
            assert(g1 =~= g0.push(s@));
            assert(row1[row0.len() as int] == id);
            assert forall|i: int| 0 <= i < g1.len() implies self.index.buckets@.contains_key(
                gate_key(#[trigger] g1[i]),
            ) && self.index.buckets@[gate_key(g1[i])]@.contains(i as u32) by {
                if i < g0.len() {
                    assert(g1[i] == g0[i]);
                    assert(b0.contains_key(gate_key(g0[i])));
                    assert(b0[gate_key(g0[i])]@.contains(i as u32));
                    if gate_key(g0[i]) == key {
                        let j = choose|j: int| 0 <= j < row0.len() && row0[j] == i as u32;
                        assert(row1[j] == i as u32);
                    }
                }
            }
            assert forall|k: u64, j: int|
                self.index.buckets@.contains_key(k) && 0 <= j
                    < self.index.buckets@[k]@.len() implies #[trigger] self.index.buckets@[k]@[j]
                < g1.len() by {
                if k == key {
                    if j < row0.len() {
                        assert(b0[k]@[j] < g0.len());
                    }
                } else {
                    assert(b0[k]@[j] < g0.len());
                }
            }
            lemma_grown(g0, g1);
            assert forall|i: int| 0 <= i < g1.len() implies gate_wf(
                #[trigger] g1[i],
                i,
                self.dffs@.len(),
            ) by {
                if i < g0.len() {
                    assert(g1[i] == g0[i]);
                }
            }
            assert(g1.no_duplicates());
            assert forall|i: int| 0 <= i < self.outputs@.len() implies row_wf(
                (#[trigger] self.outputs@[i]).1@,
                g1.len(),
            ) by {
                assert(row_wf(old(self).outputs@[i].1@, g0.len()));
            }
        }
        id
    }

    pub fn one(&self) -> (s: Sig)
        ensures
            s == 0,
    {
        0
    }

    pub fn zero(&self) -> (s: Sig)
        ensures
            s == 1,
    {
        1
    }

    pub fn constant(&self, v: bool) -> (s: Sig)
        ensures
            s == if v {
                0u32
            } else {
                1u32
            },
    {
        if v {
            self.one()
        } else {
            self.zero()
        }
    }

    pub fn src(&self, s: Sig) -> (r: &Src)
        requires
            s < self.sigs@.len(),
        ensures
            *r == self.sigs@[s as int],
    {
        &self.sigs[s as usize]
    }

    pub fn input(&mut self, port: u32, bit: u32) -> (id: Sig)
        requires
            old(self).wf(),
            old(self).room(1),
            bit < 64,
        ensures
            old(self).only_grew(final(self)),
            (final(self).gates(), id) == intern_gate(old(self).gates(), Gate::Input { port, bit }),
            id < final(self).gates().len(),
            forall|e: Env| #[trigger]
                sig_value(final(self).gates(), e, id) == crate::bits::bit(
                    port_value(e.ins, port),
                    bit as int,
                ),
            final(self).gates().len() <= old(self).gates().len() + 1,
    {
        self.intern(Src::Input { port, bit })
    }

    pub fn reset(&mut self) -> (id: Sig)
        requires
            old(self).wf(),
            old(self).room(1),
        ensures
            old(self).only_grew(final(self)),
            (final(self).gates(), id) == intern_gate(old(self).gates(), Gate::Reset),
            id < final(self).gates().len(),
            forall|e: Env| #[trigger] sig_value(final(self).gates(), e, id) == e.reset,
            final(self).gates().len() <= old(self).gates().len() + 1,
    {
        self.intern(Src::Reset)
    }

    /// A new flip-flop: its index, and the signal that carries its output.
    pub fn add_dff(&mut self, name: &str) -> (r: (u32, Sig))
        requires
            old(self).wf(),
            old(self).room(1),
            old(self).dffs@.len() < u32::MAX,
        ensures
            final(self).wf(),
            r.0 == old(self).dffs@.len(),
            final(self).dffs@.len() == old(self).dffs@.len() + 1,
            forall|i: int|
                0 <= i < old(self).dffs@.len() ==> #[trigger] final(self).dffs@[i] == old(
                    self,
                ).dffs@[i],
            final(self).dffs@[r.0 as int].name@ == name@,
            final(self).dffs@[r.0 as int].d == 1,
            grown(old(self).gates(), final(self).gates()),
            (final(self).gates(), r.1) == intern_gate(old(self).gates(), Gate::DffQ(r.0)),
            r.1 < final(self).gates().len(),
            forall|e: Env| #[trigger] sig_value(final(self).gates(), e, r.1) == e.q[r.0 as int],
            final(self).gates().len() <= old(self).gates().len() + 1,
            final(self).input_names == old(self).input_names,
            final(self).outputs == old(self).outputs,
            final(self).done == old(self).done,
    {
        let idx: u32 = self.dffs.len() as u32;
        // `d` is patched later via `set_dff_d`; zero is a safe placeholder.
        let d: u32 = self.zero();
        let ghost g0 = self.gates();
        self.dffs.push(Dff { name: name.to_owned(), d });
        proof {
            assert(self.gates() =~= g0);
            assert forall|i: int| 0 <= i < g0.len() implies gate_wf(
                #[trigger] g0[i],
                i,
                self.dffs@.len(),
            ) by {
                assert(gate_wf(g0[i], i, old(self).dffs@.len()));
            }
        }
        let q: u32 = self.intern(Src::DffQ(idx));
        (idx, q)
    }

    /// The signal carrying flip-flop `idx`'s output.
    ///
    /// The placer needs this to treat Q as a source, the same way it treats an
    /// input lever.
    pub fn dff_q(&self, idx: u32) -> (r: Option<Sig>)
        requires
            self.sigs@.len() <= u32::MAX,
        ensures
            match r {
                Some(s) => s < self.gates().len() && self.gates()[s as int] == Gate::DffQ(idx)
                    && forall|k: int| 0 <= k < s ==> #[trigger] self.gates()[k] != Gate::DffQ(idx),
                None => !self.gates().contains(Gate::DffQ(idx)),
            },
    {
        let mut i: usize = 0;
        while i < self.sigs.len()
            invariant
                i <= self.sigs@.len(),
                self.sigs@.len() <= u32::MAX,
                forall|k: int| 0 <= k < i ==> #[trigger] self.gates()[k] != Gate::DffQ(idx),
            decreases self.sigs@.len() - i,
        {
            assert(self.gates()[i as int] == self.sigs@[i as int]@);
            if let Src::DffQ(k) = &self.sigs[i] {
                if *k == idx {
                    return Some(i as Sig);
                }
            }
            i = i + 1;
        }
        None
    }

    pub fn set_dff_d(&mut self, idx: u32, d: Sig)
        requires
            idx < old(self).dffs@.len(),
        ensures
            final(self).dffs@.len() == old(self).dffs@.len(),
            final(self).dffs@[idx as int].d == d,
            final(self).dffs@[idx as int].name == old(self).dffs@[idx as int].name,
            forall|i: int|
                0 <= i < old(self).dffs@.len() && i != idx ==> #[trigger] final(self).dffs@[i] == old(
                    self,
                ).dffs@[i],
            final(self).sigs == old(self).sigs,
            final(self).index == old(self).index,
            final(self).input_names == old(self).input_names,
            final(self).outputs == old(self).outputs,
            final(self).done == old(self).done,
            old(self).wf() && d < old(self).gates().len() ==> final(self).wf(),
    {
        self.dffs[idx as usize].d = d;
        assert(self.gates() =~= old(self).gates());
    }

    /// NOR with constant folding and canonicalisation.
    pub fn nor(&mut self, inputs: &[Sig]) -> (id: Sig)
        requires
            old(self).wf(),
            old(self).room(1),
            row_wf(inputs@, old(self).gates().len()),
        ensures
            old(self).only_grew(final(self)),
            (final(self).gates(), id) == nor_gate(old(self).gates(), inputs@),
            id < final(self).gates().len(),
            forall|e: Env| #[trigger]
                sig_value(final(self).gates(), e, id) == !any_high(
                    old(self).gates(),
                    e,
                    inputs@,
                ),
            final(self).gates().len() <= old(self).gates().len() + 1,
    {
        let ghost g0 = self.gates();
        let mut v: Vec<Sig> = Vec::with_capacity(inputs.len());
        assert(canonical_of(inputs@.take(0), v@));
        for i in 0..inputs.len()
            invariant
                g0 == self.gates(),
                *old(self) == *self,
                self.wf(),
                row_wf(inputs@, g0.len()),
                canonical_of(inputs@.take(i as int), v@),
                v@.len() <= i,
                !inputs@.take(i as int).contains(0),
        {
            let x: u32 = inputs[i];
            proof {
                assert(inputs@.take(i + 1) =~= inputs@.take(i as int).push(x));
                assert forall|y: Sig| #[trigger] inputs@.take(i + 1).contains(y) <==> inputs@.take(
                    i as int,
                ).contains(y) || y == x by {
                    if inputs@.take(i as int).contains(y) {
                        let k = choose|k: int| 0 <= k < i && inputs@.take(i as int)[k] == y;
                        assert(inputs@.take(i + 1)[k] == y);
                    }
                    if y == x {
                        assert(inputs@.take(i + 1)[i as int] == y);
                    }
                }
            }
            // A single true input forces the output low.
            if x == self.one() {
                proof {
                    assert(inputs@[i as int] == 0);
                    assert(inputs@.contains(0));
                    lemma_grown(g0, g0);
                    assert forall|e: Env| #[trigger]
                        sig_value(g0, e, 1u32) == !any_high(g0, e, inputs@) by {
                        assert(sig_value(g0, e, inputs@[i as int]));
                    }
                }
                return self.zero();
            }
            // False inputs contribute nothing to an OR.

            if x != self.zero() {
                insert_sorted(&mut v, x);
            }
        }
        proof {
            assert(inputs@.take(inputs@.len() as int) =~= inputs@);
            lemma_canonical_unique(inputs@, v@);
        }
        if v.len() == 0 {
            // NOR of nothing is true: a torch on a block nothing powers.
            proof {
                lemma_grown(g0, g0);
                assert forall|e: Env| #[trigger]
                    sig_value(g0, e, 0u32) == !any_high(g0, e, inputs@) by {
                    if any_high(g0, e, inputs@) {
                        let k = choose|k: int| 0 <= k < inputs@.len() && sig_value(g0, e, #[trigger] inputs@[k]);
                        assert(inputs@.contains(inputs@[k]));
                        assert(!v@.contains(inputs@[k]));
                    }
                }
            }
            return self.one();
        }
        proof {
            assert forall|k: int| 0 <= k < v@.len() implies (#[trigger] v@[k]) < g0.len() by {
                assert(v@.contains(v@[k]));
                let j = choose|j: int| 0 <= j < inputs@.len() && inputs@[j] == v@[k];
                assert(inputs@[j] < g0.len());
            }
        }
        let id: u32 = self.intern(Src::Nor(v));
        proof {
            lemma_nor_level(self.gates(), self.dffs@.len(), id, inputs@);
            assert forall|e: Env| #[trigger]
                sig_value(self.gates(), e, id) == !any_high(g0, e, inputs@) by {
                lemma_levels_kept(g0, self.gates(), e, inputs@);
            }
        }
        id
    }

    pub fn not(&mut self, a: Sig) -> (id: Sig)
        requires
            old(self).wf(),
            old(self).room(1),
            a < old(self).gates().len(),
        ensures
            old(self).only_grew(final(self)),
            (final(self).gates(), id) == not_gate(old(self).gates(), a),
            id < final(self).gates().len(),
            forall|e: Env| #[trigger]
                sig_value(final(self).gates(), e, id) == !sig_value(old(self).gates(), e, a),
            final(self).gates().len() <= old(self).gates().len() + 1,
    {
        // Peephole: NOT(NOR(x)) is x, which collapses the double inverters that
        // and/or construction produces in bulk.
        let ghost g0 = self.gates();
        assert(gate_wf(g0[a as int], a as int, self.dffs@.len()));
        if let Src::Nor(ins) = self.src(a) {
            if ins.len() == 1 {
                proof {
                    lemma_grown(g0, g0);
                    assert(g0[a as int] == Gate::Nor(ins@));
                    assert(ins@[0] < a);
                }
                return ins[0];
            }
        }
        let row: Vec<Sig> = vec![a];
        assert(row@ =~= seq![a]);
        let id: u32 = self.nor(row.as_slice());
        proof {
            assert forall|e: Env| any_high(g0, e, row@) == #[trigger] sig_value(g0, e, a) by {
                assert(row@[0] == a);
                if sig_value(g0, e, a) {
                    assert(sig_value(g0, e, row@[0]));
                }
            }
        }
        id
    }

    pub fn or(&mut self, a: Sig, b: Sig) -> (id: Sig)
        requires
            old(self).wf(),
            old(self).room(2),
            a < old(self).gates().len(),
            b < old(self).gates().len(),
        ensures
            old(self).only_grew(final(self)),
            (final(self).gates(), id) == or_gate(old(self).gates(), seq![a, b]),
            id < final(self).gates().len(),
            forall|e: Env| #[trigger]
                sig_value(final(self).gates(), e, id) == (sig_value(old(self).gates(), e, a)
                    || sig_value(old(self).gates(), e, b)),
            final(self).gates().len() <= old(self).gates().len() + 2,
    {
        let row: Vec<Sig> = vec![a, b];
        assert(row@ =~= seq![a, b]);
        let n: u32 = self.nor(row.as_slice());
        let ghost g1 = self.gates();
        let id: u32 = self.not(n);
        proof {
            lemma_grown_trans(old(self).gates(), g1, self.gates());
            lemma_pair_high(old(self).gates(), row@);
        }
        id
    }

    pub fn or_all(&mut self, xs: &[Sig]) -> (id: Sig)
        requires
            old(self).wf(),
            old(self).room(2),
            row_wf(xs@, old(self).gates().len()),
        ensures
            old(self).only_grew(final(self)),
            (final(self).gates(), id) == or_gate(old(self).gates(), xs@),
            id < final(self).gates().len(),
            forall|e: Env| #[trigger]
                sig_value(final(self).gates(), e, id) == any_high(old(self).gates(), e, xs@),
            final(self).gates().len() <= old(self).gates().len() + 2,
    {
        let n: u32 = self.nor(xs);
        let ghost g1 = self.gates();
        let id: u32 = self.not(n);
        proof {
            lemma_grown_trans(old(self).gates(), g1, self.gates());
        }
        id
    }

    pub fn and(&mut self, a: Sig, b: Sig) -> (id: Sig)
        requires
            old(self).wf(),
            old(self).room(3),
            a < old(self).gates().len(),
            b < old(self).gates().len(),
        ensures
            old(self).only_grew(final(self)),
            (final(self).gates(), id) == and_gate(old(self).gates(), a, b),
            id < final(self).gates().len(),
            forall|e: Env| #[trigger]
                sig_value(final(self).gates(), e, id) == (sig_value(old(self).gates(), e, a)
                    && sig_value(old(self).gates(), e, b)),
            final(self).gates().len() <= old(self).gates().len() + 3,
    {
        let na: u32 = self.not(a);
        let ghost g1 = self.gates();
        let nb: u32 = self.not(b);
        let ghost g2 = self.gates();
        let row: Vec<Sig> = vec![na, nb];
        assert(row@ =~= seq![na, nb]);
        let id: u32 = self.nor(row.as_slice());
        proof {
            lemma_grown_trans(old(self).gates(), g1, g2);
            lemma_grown_trans(old(self).gates(), g2, self.gates());
            lemma_pair_high(g2, row@);
        }
        id
    }

    pub fn and_all(&mut self, xs: &[Sig]) -> (id: Sig)
        requires
            old(self).wf(),
            old(self).room(xs@.len() + 1),
            row_wf(xs@, old(self).gates().len()),
        ensures
            old(self).only_grew(final(self)),
            (final(self).gates(), id) == and_all_gate(old(self).gates(), xs@),
            id < final(self).gates().len(),
            forall|e: Env| #[trigger]
                sig_value(final(self).gates(), e, id) == (forall|k: int|
                    0 <= k < xs@.len() ==> sig_value(old(self).gates(), e, #[trigger] xs@[k])),
            final(self).gates().len() <= old(self).gates().len() + xs@.len() + 1,
    {
        let ghost g0 = self.gates();
        let mut inv: Vec<Sig> = Vec::new();
        proof {
            lemma_grown(g0, g0);
        }
        for i in 0..xs.len()
            invariant
                old(self).room(xs@.len() + 1),
                g0 == old(self).gates(),
                old(self).only_grew(self),
                row_wf(xs@, g0.len()),
                (self.gates(), inv@) == not_gates(g0, xs@, i as int),
                inv@.len() == i,
                row_wf(inv@, self.gates().len()),
                self.gates().len() <= g0.len() + i,
                forall|e: Env, k: int|
                    0 <= k < i ==> #[trigger] sig_value(self.gates(), e, inv@[k]) == !sig_value(
                        g0,
                        e,
                        xs@[k],
                    ),
        {
            let ghost g1 = self.gates();
            let ghost inv1 = inv@;
            assert(xs@[i as int] < g0.len());
            let x: u32 = self.not(xs[i]);
            inv.push(x);
            proof {
                lemma_grown_trans(g0, g1, self.gates());
                assert forall|e: Env, k: int| 0 <= k < i + 1 implies #[trigger] sig_value(
                    self.gates(),
                    e,
                    inv@[k],
                ) == !sig_value(g0, e, xs@[k]) by {
                    if k < i {
                        assert(inv@[k] == inv1[k]);
                        assert(inv1[k] < g1.len());
                        assert(sig_value(self.gates(), e, inv1[k]) == sig_value(g1, e, inv1[k]));
                    } else {
                        assert(sig_value(g1, e, xs@[k]) == sig_value(g0, e, xs@[k]));
                    }
                }
            }
        }
        let ghost g2 = self.gates();
        let id: u32 = self.nor(inv.as_slice());
        proof {
            lemma_grown_trans(g0, g2, self.gates());
            assert forall|e: Env| #[trigger]
                sig_value(self.gates(), e, id) == (forall|k: int|
                    0 <= k < xs@.len() ==> sig_value(g0, e, #[trigger] xs@[k])) by {
                if any_high(g2, e, inv@) {
                    let k = choose|k: int| 0 <= k < inv@.len() && sig_value(g2, e, #[trigger] inv@[k]);
                    assert(!sig_value(g0, e, xs@[k]));
                } else {
                    assert forall|k: int| 0 <= k < xs@.len() implies sig_value(
                        g0,
                        e,
                        #[trigger] xs@[k],
                    ) by {
                        assert(!sig_value(g2, e, inv@[k]));
                    }
                }
            }
        }
        id
    }

    /// XOR built as `NOR(NOR(a,b), AND(a,b))`, i.e. `(a|b) & !(a&b)`.
    pub fn xor(&mut self, a: Sig, b: Sig) -> (id: Sig)
        requires
            old(self).wf(),
            old(self).room(5),
            a < old(self).gates().len(),
            b < old(self).gates().len(),
        ensures
            old(self).only_grew(final(self)),
            (final(self).gates(), id) == xor_gate(old(self).gates(), a, b),
            id < final(self).gates().len(),
            forall|e: Env| #[trigger]
                sig_value(final(self).gates(), e, id) == (sig_value(old(self).gates(), e, a)
                    != sig_value(old(self).gates(), e, b)),
            final(self).gates().len() <= old(self).gates().len() + 5,
    {
        if a == b {
            proof {
                lemma_grown(self.gates(), self.gates());
            }
            return self.zero();
        }
        let row: Vec<Sig> = vec![a, b];
        assert(row@ =~= seq![a, b]);
        let nor_ab: u32 = self.nor(row.as_slice());
        let ghost g1 = self.gates();
        let and_ab: u32 = self.and(a, b);
        let ghost g2 = self.gates();
        let row2: Vec<Sig> = vec![nor_ab, and_ab];
        assert(row2@ =~= seq![nor_ab, and_ab]);
        let id: u32 = self.nor(row2.as_slice());
        proof {
            lemma_grown_trans(old(self).gates(), g1, g2);
            lemma_grown_trans(old(self).gates(), g2, self.gates());
            lemma_pair_high(old(self).gates(), row@);
            lemma_pair_high(g2, row2@);
        }
        id
    }

    pub fn xnor(&mut self, a: Sig, b: Sig) -> (id: Sig)
        requires
            old(self).wf(),
            old(self).room(6),
            a < old(self).gates().len(),
            b < old(self).gates().len(),
        ensures
            old(self).only_grew(final(self)),
            ({
                let (g, x) = xor_gate(old(self).gates(), a, b);
                (final(self).gates(), id) == not_gate(g, x)
            }),
            id < final(self).gates().len(),
            forall|e: Env| #[trigger]
                sig_value(final(self).gates(), e, id) == (sig_value(old(self).gates(), e, a)
                    == sig_value(old(self).gates(), e, b)),
            final(self).gates().len() <= old(self).gates().len() + 6,
    {
        let x: u32 = self.xor(a, b);
        let ghost g1 = self.gates();
        let id: u32 = self.not(x);
        proof {
            lemma_grown_trans(old(self).gates(), g1, self.gates());
        }
        id
    }

    pub fn mux(&mut self, c: Sig, t: Sig, f: Sig) -> (id: Sig)
        requires
            old(self).wf(),
            old(self).room(9),
            c < old(self).gates().len(),
            t < old(self).gates().len(),
            f < old(self).gates().len(),
        ensures
            old(self).only_grew(final(self)),
            (final(self).gates(), id) == mux_gate(old(self).gates(), c, t, f),
            id < final(self).gates().len(),
            forall|e: Env| #[trigger]
                sig_value(final(self).gates(), e, id) == if sig_value(old(self).gates(), e, c) {
                    sig_value(old(self).gates(), e, t)
                } else {
                    sig_value(old(self).gates(), e, f)
                },
            final(self).gates().len() <= old(self).gates().len() + 9,
    {
        proof {
            lemma_grown(self.gates(), self.gates());
        }
        if t == f {
            return t;
        }
        if c == self.one() {
            return t;
        }
        if c == self.zero() {
            return f;
        }
        let nc: u32 = self.not(c);
        let ghost g1 = self.gates();
        let a: u32 = self.and(c, t);
        let ghost g2 = self.gates();
        let b: u32 = self.and(nc, f);
        let ghost g3 = self.gates();
        let id: u32 = self.or(a, b);
        proof {
            lemma_grown_trans(old(self).gates(), g1, g2);
            lemma_grown_trans(old(self).gates(), g2, g3);
            lemma_grown_trans(old(self).gates(), g3, self.gates());
        }
        id
    }

    /// Majority of three: the carry-out of a full adder, as an OR of ANDs.
    pub fn maj3(&mut self, a: Sig, b: Sig, c: Sig) -> (id: Sig)
        requires
            old(self).wf(),
            old(self).room(11),
            a < old(self).gates().len(),
            b < old(self).gates().len(),
            c < old(self).gates().len(),
        ensures
            old(self).only_grew(final(self)),
            (final(self).gates(), id) == maj3_gate(old(self).gates(), a, b, c),
            id < final(self).gates().len(),
            forall|e: Env| #[trigger]
                sig_value(final(self).gates(), e, id) == ({
                    let x = sig_value(old(self).gates(), e, a);
                    let y = sig_value(old(self).gates(), e, b);
                    let z = sig_value(old(self).gates(), e, c);
                    (x && y) || (x && z) || (y && z)
                }),
            final(self).gates().len() <= old(self).gates().len() + 11,
    {
        let ab: u32 = self.and(a, b);
        let ghost g1 = self.gates();
        let ac: u32 = self.and(a, c);
        let ghost g2 = self.gates();
        let bc: u32 = self.and(b, c);
        let ghost g3 = self.gates();
        let row: Vec<Sig> = vec![ab, ac, bc];
        assert(row@ =~= seq![ab, ac, bc]);
        let id: u32 = self.or_all(row.as_slice());
        proof {
            lemma_grown_trans(old(self).gates(), g1, g2);
            lemma_grown_trans(old(self).gates(), g2, g3);
            lemma_grown_trans(old(self).gates(), g3, self.gates());
            assert forall|e: Env| any_high(g3, e, row@) == (#[trigger] sig_value(g3, e, ab)
                || sig_value(g3, e, ac) || sig_value(g3, e, bc)) by {
                assert(row@[0] == ab && row@[1] == ac && row@[2] == bc);
                if any_high(g3, e, row@) {
                    let k = choose|k: int| 0 <= k < row@.len() && sig_value(g3, e, #[trigger] row@[k]);
                    assert(k == 0 || k == 1 || k == 2);
                }
            }
            assert forall|e: Env| #[trigger]
                sig_value(self.gates(), e, id) == ({
                    let x = sig_value(old(self).gates(), e, a);
                    let y = sig_value(old(self).gates(), e, b);
                    let z = sig_value(old(self).gates(), e, c);
                    (x && y) || (x && z) || (y && z)
                }) by {
                assert(sig_value(g3, e, ab) == sig_value(g1, e, ab));
                assert(sig_value(g3, e, ac) == sig_value(g2, e, ac));
            }
        }
        id
    }

    pub fn xor3(&mut self, a: Sig, b: Sig, c: Sig) -> (id: Sig)
        requires
            old(self).wf(),
            old(self).room(10),
            a < old(self).gates().len(),
            b < old(self).gates().len(),
            c < old(self).gates().len(),
        ensures
            old(self).only_grew(final(self)),
            (final(self).gates(), id) == xor3_gate(old(self).gates(), a, b, c),
            id < final(self).gates().len(),
            forall|e: Env| #[trigger]
                sig_value(final(self).gates(), e, id) == ((sig_value(old(self).gates(), e, a)
                    != sig_value(old(self).gates(), e, b)) != sig_value(old(self).gates(), e, c)),
            final(self).gates().len() <= old(self).gates().len() + 10,
    {
        let x: u32 = self.xor(a, b);
        let ghost g1 = self.gates();
        let id: u32 = self.xor(x, c);
        proof {
            lemma_grown_trans(old(self).gates(), g1, self.gates());
        }
        id
    }

    pub fn gate_count(&self) -> (n: usize)
        ensures
            n == nor_count(self.gates()),
    {
        let mut n: usize = 0;
        for i in 0..self.sigs.len()
            invariant
                n == nor_count(self.gates().take(i as int)),
                n <= i,
        {
            assert(self.gates().take(i + 1).drop_last() =~= self.gates().take(i as int));
            assert(self.gates()[i as int] == self.sigs@[i as int]@);
            if let Src::Nor(_) = &self.sigs[i] {
                n = n + 1;
            }
        }
        assert(self.gates().take(self.sigs@.len() as int) =~= self.gates());
        n
    }

    pub fn operands(&self, s: Sig) -> (v: Vec<Sig>)
        requires
            s < self.sigs@.len(),
        ensures
            v@ == gate_operands(self.gates()[s as int]),
    {
        match &self.sigs[s as usize] {
            Src::Nor(v) => {
                let r = v.clone();
                assert(r@ =~= v@);
                r
            },
            _ => Vec::new(),
        }
    }

    /// Combinational signals in topological order (operands before users).
    /// DFF outputs and primary inputs are leaves, so this always terminates.
    pub fn topo_order(&self, roots: &[Sig]) -> (order: Vec<Sig>)
        requires
            self.wf(),
            row_wf(roots@, self.gates().len()),
        ensures
            is_topo_order(self, roots@, order@),
            order@ == walked(self, roots@),
    {
        topo_order(self, roots)
    }

    /// Every signal the design needs to compute: flip-flop inputs, outputs,
    /// and `done`.
    pub fn roots(&self) -> (r: Vec<Sig>)
        ensures
            r@ == self.root_sigs(),
    {
        let mut r: Vec<Sig> = Vec::new();
        for i in 0..self.dffs.len()
            invariant
                r@ == Seq::new(i as nat, |k: int| self.dffs@[k].d),
        {
            r.push(self.dffs[i].d);
            assert(r@ =~= Seq::new((i + 1) as nat, |k: int| self.dffs@[k].d));
        }
        let ghost base = r@;
        for i in 0..self.outputs.len()
            invariant
                r@ == base + output_sigs(self.outputs@.take(i as int)),
        {
            let bits = &self.outputs[i].1;
            let ghost r0 = r@;
            for j in 0..bits.len()
                invariant
                    r@ == r0 + bits@.take(j as int),
            {
                r.push(bits[j]);
                assert(r@ =~= r0 + bits@.take(j + 1));
            }
            proof {
                assert(bits@.take(bits@.len() as int) =~= bits@);
                assert(self.outputs@.take(i + 1).drop_last() =~= self.outputs@.take(i as int));
                assert(r@ =~= base + output_sigs(self.outputs@.take(i + 1)));
            }
        }
        assert(self.outputs@.take(self.outputs@.len() as int) =~= self.outputs@);
        r.push(self.done);
        assert(r@ =~= self.root_sigs());
        r
    }

    pub open spec fn root_sigs(&self) -> Seq<Sig> {
        Seq::new(self.dffs@.len(), |k: int| self.dffs@[k].d) + output_sigs(self.outputs@)
            + seq![self.done]
    }

    /// Longest combinational path, in gate levels, from any leaf to any root.
    /// This is what sets the minimum safe clock period.
    pub fn logic_depth(&self) -> (d: u32)
        requires
            self.wf(),
        ensures
            d == row_depth(self.gates(), self.root_sigs(), self.root_sigs().len()),
    {
        let roots = self.roots();
        proof {
            lemma_roots_wf(self);
        }
        let order = self.topo_order(roots.as_slice());
        let mut depth: Vec<u32> = vec![0u32; self.sigs.len()];
        for i in 0..order.len()
            invariant
                self.wf(),
                depth@.len() == self.sigs@.len(),
                is_topo_order(self, roots@, order@),
                forall|j: int|
                    0 <= j < i ==> depth@[(#[trigger] order@[j]) as int] == gate_depth(
                        self.gates(),
                        order@[j],
                    ),
        {
            let s: u32 = order[i];
            assert(order@[i as int] < self.spec_size());
            let ops = self.operands(s);
            let mut d: u32 = 0;
            proof {
                assert(gate_wf(self.gates()[s as int], s as int, self.dffs@.len()));
            }
            for k in 0..ops.len()
                invariant
                    self.wf(),
                    s < self.gates().len(),
                    s == order@[i as int],
                    0 <= i < order@.len(),
                    depth@.len() == self.sigs@.len(),
                    ops@ == gate_operands(self.gates()[s as int]),
                    is_topo_order(self, roots@, order@),
                    forall|j: int|
                        0 <= j < i ==> depth@[(#[trigger] order@[j]) as int] == gate_depth(
                            self.gates(),
                            order@[j],
                        ),
                    d == row_depth(self.gates(), ops@, k as nat),
            {
                proof {
                    assert(gate_wf(self.gates()[s as int], s as int, self.dffs@.len()));
                    let op = self.spec_operands(order@[i as int] as int)[k as int];
                    assert(op == ops@[k as int]);
                    assert(order@.subrange(0, i as int).contains(op));
                    let j = choose|j: int|
                        0 <= j < order@.subrange(0, i as int).len() && order@.subrange(0, i as int)[j]
                            == op;
                    assert(order@[j] == op);
                    assert(op < s);
                }
                let x: u32 = depth[ops[k] as usize];
                if x > d {
                    d = x;
                }
            }
            proof {
                lemma_depth_bound(self.gates(), self.dffs@.len(), s);
                if let Gate::Nor(v) = self.gates()[s as int] {
                    lemma_operand_depth(self.gates(), v, s, v.len());
                }
            }
            let ghost depth0 = depth@;
            let own: u32 = match &self.sigs[s as usize] {
                Src::Nor(_) => d + 1,
                _ => d,
            };
            depth.set(s as usize, own);
            proof {
                assert forall|j: int| 0 <= j < i + 1 implies depth@[(#[trigger] order@[j]) as int]
                    == gate_depth(self.gates(), order@[j]) by {
                    if j < i {
                        assert(order@[j] != order@[i as int]);
                        assert(depth0[order@[j] as int] == gate_depth(self.gates(), order@[j]));
                    }
                }
            }
        }
        let mut d: u32 = 0;
        for k in 0..roots.len()
            invariant
                depth@.len() == self.sigs@.len(),
                self.wf(),
                row_wf(roots@, self.gates().len()),
                is_topo_order(self, roots@, order@),
                forall|j: int|
                    0 <= j < order@.len() ==> depth@[(#[trigger] order@[j]) as int] == gate_depth(
                        self.gates(),
                        order@[j],
                    ),
                d == row_depth(self.gates(), roots@, k as nat),
        {
            proof {
                assert(roots@[k as int] < self.gates().len());
                assert(needed(self, roots@, roots@[k as int] as int));
                assert(order@.contains(roots@[k as int]));
                let j = choose|j: int| 0 <= j < order@.len() && order@[j] == roots@[k as int];
                assert(depth@[order@[j] as int] == gate_depth(self.gates(), order@[j]));
            }
            let x: u32 = depth[roots[k] as usize];
            if x > d {
                d = x;
            }
        }
        d
    }
}

/// Do all of these signals exist?
pub open spec fn row_wf(v: Seq<Sig>, n: nat) -> bool {
    forall|k: int| 0 <= k < v.len() ==> (#[trigger] v[k]) < n
}

/// The signals of the output ports, port by port.
pub open spec fn output_sigs(outputs: Seq<(String, Vec<Sig>)>) -> Seq<Sig>
    decreases outputs.len(),
{
    if outputs.len() == 0 {
        seq![]
    } else {
        output_sigs(outputs.drop_last()) + outputs.last().1@
    }
}

/// How many of the signals are gates.
pub open spec fn nor_count(gates: Seq<Gate>) -> nat
    decreases gates.len(),
{
    if gates.len() == 0 {
        0
    } else {
        nor_count(gates.drop_last()) + if gates.last() is Nor {
            1nat
        } else {
            0
        }
    }
}

/// Gate levels between a signal and the leaves below it, on the longest path.
pub open spec fn gate_depth(gates: Seq<Gate>, s: Sig) -> nat
    decreases s, gate_operands(gates[s as int]).len() + 1,
{
    match gates[s as int] {
        Gate::Nor(v) => 1 + operand_depth(gates, s, v.len()),
        _ => 0,
    }
}

/// The greatest depth among the first `n` operands of a gate.
pub open spec fn operand_depth(gates: Seq<Gate>, s: Sig, n: nat) -> nat
    decreases s, n,
{
    let v = gate_operands(gates[s as int]);
    if n == 0 || n > v.len() {
        0
    } else {
        let rest = operand_depth(gates, s, (n - 1) as nat);
        let own = if v[n - 1] < s {
            gate_depth(gates, v[n - 1])
        } else {
            0
        };
        if own > rest {
            own
        } else {
            rest
        }
    }
}

/// The greatest depth among the first `n` signals of a row.
pub open spec fn row_depth(gates: Seq<Gate>, v: Seq<Sig>, n: nat) -> nat
    decreases n,
{
    if n == 0 {
        0
    } else {
        let rest = row_depth(gates, v, (n - 1) as nat);
        let own = gate_depth(gates, v[n - 1]);
        if own > rest {
            own
        } else {
            rest
        }
    }
}

proof fn lemma_operand_depth(gates: Seq<Gate>, v: Seq<Sig>, s: Sig, n: nat)
    requires
        gates[s as int] == Gate::Nor(v),
        n <= v.len(),
        forall|k: int| 0 <= k < v.len() ==> (#[trigger] v[k]) < s,
    ensures
        operand_depth(gates, s, n) == row_depth(gates, v, n),
    decreases n,
{
    if n > 0 {
        lemma_operand_depth(gates, v, s, (n - 1) as nat);
        assert(v[n - 1] < s);
    }
}

proof fn lemma_depth_bound(gates: Seq<Gate>, dffs: nat, s: Sig)
    requires
        gates_wf(gates, dffs),
        s < gates.len(),
    ensures
        gate_depth(gates, s) <= s,
    decreases s,
{
    assert(gate_wf(gates[s as int], s as int, dffs));
    if let Gate::Nor(v) = gates[s as int] {
        assert forall|k: int| 0 <= k < v.len() implies gate_depth(gates, #[trigger] v[k]) < s by {
            lemma_depth_bound(gates, dffs, v[k]);
        }
        lemma_operand_depth_bound(gates, v, s, v.len());
        if s == 0 {
            assert(gates[0] == Gate::One);
        }
    }
}

proof fn lemma_operand_depth_bound(gates: Seq<Gate>, v: Seq<Sig>, s: Sig, n: nat)
    requires
        gates[s as int] == Gate::Nor(v),
        n <= v.len(),
        s > 0,
        forall|k: int| 0 <= k < v.len() ==> gate_depth(gates, #[trigger] v[k]) < s,
    ensures
        operand_depth(gates, s, n) < s,
    decreases n,
{
    if n > 0 {
        lemma_operand_depth_bound(gates, v, s, (n - 1) as nat);
        assert(gate_depth(gates, v[n - 1]) < s);
    }
}

proof fn lemma_output_sigs_wf(outputs: Seq<(String, Vec<Sig>)>, n: nat)
    requires
        forall|i: int| 0 <= i < outputs.len() ==> row_wf((#[trigger] outputs[i]).1@, n),
    ensures
        row_wf(output_sigs(outputs), n),
    decreases outputs.len(),
{
    if outputs.len() > 0 {
        assert(row_wf(outputs[outputs.len() - 1].1@, n));
        assert forall|i: int| 0 <= i < outputs.drop_last().len() implies row_wf(
            (#[trigger] outputs.drop_last()[i]).1@,
            n,
        ) by {
            assert(outputs.drop_last()[i] == outputs[i]);
        }
        lemma_output_sigs_wf(outputs.drop_last(), n);
        let a = output_sigs(outputs.drop_last());
        let b = outputs.last().1@;
        assert forall|k: int| 0 <= k < (a + b).len() implies (#[trigger] (a + b)[k]) < n by {
            if k < a.len() {
                assert((a + b)[k] == a[k]);
            } else {
                assert((a + b)[k] == b[k - a.len()]);
            }
        }
    }
}

/// Every root of a netlist is one of its signals.
pub proof fn lemma_roots_wf(net: &Netlist)
    requires
        net.wf(),
    ensures
        row_wf(net.root_sigs(), net.gates().len()),
{
    let n = net.gates().len();
    lemma_output_sigs_wf(net.outputs@, n);
    let a = Seq::new(net.dffs@.len(), |k: int| net.dffs@[k].d);
    let b = output_sigs(net.outputs@);
    let r = net.root_sigs();
    assert forall|k: int| 0 <= k < r.len() implies (#[trigger] r[k]) < n by {
        if k < a.len() {
            assert(r[k] == net.dffs@[k].d);
        } else if k < a.len() + b.len() {
            assert(r[k] == b[k - a.len()]);
        } else {
            assert(r[k] == net.done);
        }
    }
}

/// A pair is high where one of the two is.
proof fn lemma_pair_high(gates: Seq<Gate>, v: Seq<Sig>)
    requires
        v.len() == 2,
    ensures
        forall|e: Env| #[trigger]
            any_high(gates, e, v) == (sig_value(gates, e, v[0]) || sig_value(gates, e, v[1])),
{
    assert forall|e: Env| #[trigger]
        any_high(gates, e, v) == (sig_value(gates, e, v[0]) || sig_value(gates, e, v[1])) by {
        if any_high(gates, e, v) {
            let k = choose|k: int| 0 <= k < v.len() && sig_value(gates, e, #[trigger] v[k]);
            assert(k == 0 || k == 1);
        }
    }
}

/// Put `x` in its place in a sorted row, once.
fn insert_sorted(v: &mut Vec<Sig>, x: Sig)
    requires
        canonical(old(v)@),
        x >= 2,
        old(v)@.len() < usize::MAX,
    ensures
        canonical(final(v)@),
        final(v)@.len() <= old(v)@.len() + 1,
        forall|y: Sig| #[trigger] final(v)@.contains(y) <==> old(v)@.contains(y) || y == x,
{
    let mut p: usize = 0;
    while p < v.len() && v[p] < x
        invariant
            p <= v@.len(),
            v@ == old(v)@,
            canonical(v@),
            forall|k: int| 0 <= k < p ==> (#[trigger] v@[k]) < x,
        decreases v@.len() - p,
    {
        p = p + 1;
    }
    if p < v.len() && v[p] == x {
        assert(v@.contains(v@[p as int]));
        return;
    }
    let ghost v0 = v@;
    v.insert(p, x);
    proof {
        assert forall|i: int, j: int| 0 <= i < j < v@.len() implies (#[trigger] v@[i]) < (
        #[trigger] v@[j]) by {
            let i0 = if i > p {
                i - 1
            } else {
                i
            };
            let j0 = if j > p {
                j - 1
            } else {
                j
            };
            if i != p && j != p {
                assert(v0[i0] < v0[j0]);
            } else if i == p {
                assert(v@[j] == v0[j0]);
                assert(p <= j0);
                assert(v0[p as int] > x);
                if j0 > p {
                    assert(v0[p as int] < v0[j0]);
                }
            }
        }
        assert forall|y: Sig| #[trigger] v@.contains(y) <==> v0.contains(y) || y == x by {
            if v0.contains(y) {
                let k = choose|k: int| 0 <= k < v0.len() && v0[k] == y;
                if k < p {
                    assert(v@[k] == y);
                } else {
                    assert(v@[k + 1] == y);
                }
            }
            if y == x {
                assert(v@[p as int] == y);
            }
            if v@.contains(y) {
                let k = choose|k: int| 0 <= k < v@.len() && v@[k] == y;
                if k < p {
                    assert(v0[k] == y);
                } else if k > p {
                    assert(v0[k - 1] == y);
                }
            }
        }
    }
}

impl Dag for Netlist {
    open spec fn spec_size(&self) -> nat {
        self.gates().len()
    }

    open spec fn spec_operands(&self, id: int) -> Seq<u32> {
        gate_operands(self.gates()[id])
    }

    open spec fn spec_acyclic(&self) -> bool {
        self.wf()
    }

    fn dag_size(&self) -> (n: usize) {
        self.sigs.len()
    }

    fn dag_operands(&self, id: u32) -> (ops: Vec<u32>) {
        self.operands(id)
    }

    proof fn lemma_descends(&self) {
        assert forall|id: int, k: int|
            0 <= id < self.spec_size() && 0 <= k < self.spec_operands(id).len() implies (
        #[trigger] self.spec_operands(id)[k]) < id by {
            assert(gate_wf(self.gates()[id], id, self.dffs@.len()));
        }
    }
}

// --- simulation ----------------------------------------------------------

/// Evaluate the combinational network for one clock cycle.
pub struct GateSim<'n> {
    pub net: &'n Netlist,
    pub q: Vec<bool>,
}

/// The flip-flops after one clock edge.
pub open spec fn clocked(net: &Netlist, e: Env) -> Seq<bool> {
    Seq::new(net.dffs@.len(), |i: int| sig_value(net.gates(), e, net.dffs@[i].d))
}

/// Output `k` is the first one called `name`.
pub open spec fn first_port(net: &Netlist, name: Seq<char>, k: int) -> bool {
    &&& 0 <= k < net.outputs@.len()
    &&& net.outputs@[k].0@ == name
    &&& forall|j: int| 0 <= j < k ==> (#[trigger] net.outputs@[j]).0@ != name
}

impl<'n> GateSim<'n> {
    pub open spec fn wf(&self) -> bool {
        &&& self.net.wf()
        &&& self.q@.len() == self.net.dffs@.len()
    }

    pub open spec fn env(&self, ins: Seq<u64>, reset: bool) -> Env {
        Env { q: self.q@, ins, reset }
    }

    pub fn new(net: &'n Netlist) -> (sim: GateSim<'n>)
        ensures
            sim.net == net,
            sim.q@ == Seq::new(net.dffs@.len(), |i: int| false),
    {
        let q: Vec<bool> = vec![false; net.dffs.len()];
        assert(q@ =~= Seq::new(net.dffs@.len(), |i: int| false));
        GateSim { net, q }
    }

    /// Values of every signal given the current flip-flop state.
    pub fn eval(&self, inputs: &[u64], reset: bool) -> (val: Vec<bool>)
        requires
            self.wf(),
        ensures
            val@.len() == self.net.gates().len(),
            forall|s: Sig|
                s < val@.len() ==> #[trigger] val@[s as int] == sig_value(
                    self.net.gates(),
                    self.env(inputs@, reset),
                    s,
                ),
            forall|k: int|
                0 <= k < self.net.root_sigs().len() ==> val@[(
                #[trigger] self.net.root_sigs()[k]) as int] == sig_value(
                    self.net.gates(),
                    self.env(inputs@, reset),
                    self.net.root_sigs()[k],
                ),
    {
        let ghost gates = self.net.gates();
        let ghost e = self.env(inputs@, reset);
        let mut val: Vec<bool> = Vec::new();
        // Operands come before their users, so one pass in order is enough.
        for i in 0..self.net.sigs.len()
            invariant
                self.wf(),
                gates == self.net.gates(),
                e == self.env(inputs@, reset),
                val@.len() == i,
                forall|s: Sig| s < i ==> #[trigger] val@[s as int] == sig_value(gates, e, s),
        {
            let ghost s = i as u32;
            proof {
                self.net.lemma_descends();
                assert(gate_wf(gates[i as int], i as int, self.net.dffs@.len()));
                assert(gates[i as int] == self.net.sigs@[i as int]@);
            }
            let v: bool = match &self.net.sigs[i] {
                Src::One => true,
                Src::Zero => false,
                Src::Reset => reset,
                Src::Input { port, bit } => {
                    let raw: u64 = if (*port as usize) < inputs.len() {
                        inputs[*port as usize]
                    } else {
                        0
                    };
                    (raw >> (*bit as u64)) & 1u64 == 1u64
                },
                Src::DffQ(k) => self.q[*k as usize],
                Src::Nor(ins) => {
                    let mut low: bool = true;
                    for k in 0..ins.len()
                        invariant
                            val@.len() == i,
                            forall|s: Sig| s < i ==> #[trigger] val@[s as int] == sig_value(gates, e, s),
                            forall|j: int| 0 <= j < ins@.len() ==> (#[trigger] ins@[j]) < i,
                            low <==> forall|j: int|
                                0 <= j < k ==> !sig_value(gates, e, #[trigger] ins@[j]),
                    {
                        assert(ins@[k as int] < i);
                        if val[ins[k] as usize] {
                            low = false;
                        }
                    }
                    low
                },
            };
            assert(v == sig_value(gates, e, s));
            val.push(v);
        }
        proof {
            lemma_roots_wf(self.net);
            assert forall|k: int|
                0 <= k < self.net.root_sigs().len() implies val@[(
            #[trigger] self.net.root_sigs()[k]) as int] == sig_value(gates, e, self.net.root_sigs()[k]) by {
                assert(self.net.root_sigs()[k] < gates.len());
            }
        }
        val
    }

    /// Clock one edge: sample every D and commit.
    pub fn step(&mut self, inputs: &[u64], reset: bool)
        requires
            old(self).wf(),
        ensures
            final(self).net == old(self).net,
            final(self).wf(),
            final(self).q@ == clocked(old(self).net, old(self).env(inputs@, reset)),
    {
        let val = self.eval(inputs, reset);
        let mut q: Vec<bool> = Vec::new();
        for i in 0..self.net.dffs.len()
            invariant
                *self == *old(self),
                self.wf(),
                val@.len() == self.net.gates().len(),
                forall|k: int|
                    0 <= k < self.net.root_sigs().len() ==> val@[(
                    #[trigger] self.net.root_sigs()[k]) as int] == sig_value(
                        self.net.gates(),
                        self.env(inputs@, reset),
                        self.net.root_sigs()[k],
                    ),
                q@.len() == i,
                forall|k: int|
                    0 <= k < i ==> #[trigger] q@[k] == clocked(
                        self.net,
                        self.env(inputs@, reset),
                    )[k],
        {
            assert(self.net.root_sigs()[i as int] == self.net.dffs@[i as int].d);
            q.push(val[self.net.dffs[i].d as usize]);
        }
        self.q = q;
        assert(self.q@ =~= clocked(old(self).net, old(self).env(inputs@, reset)));
    }

    /// The number on the first output called `name`; zero where there is none.
    pub fn read_output(&self, name: &str, inputs: &[u64], reset: bool) -> (r: u64)
        requires
            self.wf(),
            forall|k: int|
                0 <= k < self.net.outputs@.len() ==> (#[trigger] self.net.outputs@[k]).1@.len() <= 64,
        ensures
            forall|k: int| #[trigger]
                first_port(self.net, name@, k) ==> r == word(
                    levels(
                        self.net.gates(),
                        self.env(inputs@, reset),
                        self.net.outputs@[k].1@,
                    ),
                ),
            (forall|k: int| 0 <= k < self.net.outputs@.len() ==> (#[trigger] self.net.outputs@[k]).0@ != name@)
                ==> r == 0,
    {
        let val = self.eval(inputs, reset);
        let mut i: usize = 0;
        while i < self.net.outputs.len()
            invariant
                self.wf(),
                i <= self.net.outputs@.len(),
                val@.len() == self.net.gates().len(),
                forall|k: int|
                    0 <= k < self.net.outputs@.len() ==> (#[trigger] self.net.outputs@[k]).1@.len()
                        <= 64,
                forall|k: int|
                    0 <= k < self.net.root_sigs().len() ==> val@[(
                    #[trigger] self.net.root_sigs()[k]) as int] == sig_value(
                        self.net.gates(),
                        self.env(inputs@, reset),
                        self.net.root_sigs()[k],
                    ),
                forall|k: int| 0 <= k < i ==> (#[trigger] self.net.outputs@[k]).0@ != name@,
            decreases self.net.outputs@.len() - i,
        {
            if same_text(self.net.outputs[i].0.as_str(), name) {
                let bits = &self.net.outputs[i].1;
                let ghost lv = levels(self.net.gates(), self.env(inputs@, reset), bits@);
                assert(row_wf(self.net.outputs@[i as int].1@, self.net.gates().len()));
                let mut r: u64 = 0;
                for j in 0..bits.len()
                    invariant
                        self.wf(),
                        0 <= i < self.net.outputs@.len(),
                        bits@ == self.net.outputs@[i as int].1@,
                        bits@.len() <= 64,
                        row_wf(bits@, self.net.gates().len()),
                        val@.len() == self.net.gates().len(),
                        lv == levels(self.net.gates(), self.env(inputs@, reset), bits@),
                        forall|k: int|
                            0 <= k < self.net.root_sigs().len() ==> val@[(
                            #[trigger] self.net.root_sigs()[k]) as int] == sig_value(
                                self.net.gates(),
                                self.env(inputs@, reset),
                                self.net.root_sigs()[k],
                            ),
                        r == word(lv.take(j as int)),
                {
                    proof {
                        lemma_output_is_root(self.net, i as int, j as int);
                        assert(lv.take(j + 1).drop_last() =~= lv.take(j as int));
                        crate::bits::lemma_word_bound(lv.take(j + 1));
                        vstd::arithmetic::power2::lemma2_to64_rest();
                        if j + 1 < 64 {
                            vstd::arithmetic::power2::lemma_pow2_strictly_increases(
                                (j + 1) as nat,
                                64,
                            );
                        }
                        vstd::arithmetic::power2::lemma_pow2_strictly_increases(j as nat, 64);
                        vstd::bits::lemma_u64_shl_is_mul(1u64, j as u64);
                    }
                    assert(bits@[j as int] < self.net.gates().len());
                    if val[bits[j] as usize] {
                        r = r + (1u64 << (j as u64));
                    }
                }
                proof {
                    assert(lv.take(bits@.len() as int) =~= lv);
                    assert forall|k: int| #[trigger] first_port(self.net, name@, k) implies k == i by {
                        if k > i {
                            assert(self.net.outputs@[i as int].0@ != name@);
                        }
                    }
                }
                return r;
            }
            i = i + 1;
        }
        0
    }

    pub fn done(&self, inputs: &[u64], reset: bool) -> (r: bool)
        requires
            self.wf(),
        ensures
            r == sig_value(self.net.gates(), self.env(inputs@, reset), self.net.done),
    {
        let val = self.eval(inputs, reset);
        proof {
            let n = self.net.root_sigs().len();
            assert(self.net.root_sigs()[n - 1] == self.net.done);
        }
        val[self.net.done as usize]
    }
}

proof fn lemma_output_is_root(net: &Netlist, i: int, j: int)
    requires
        0 <= i < net.outputs@.len(),
        0 <= j < net.outputs@[i].1@.len(),
    ensures
        exists|k: int|
            0 <= k < net.root_sigs().len() && #[trigger] net.root_sigs()[k] == net.outputs@[i].1@[j],
{
    lemma_output_sigs_has(net.outputs@, i, j);
    let k = choose|k: int|
        0 <= k < output_sigs(net.outputs@).len() && #[trigger] output_sigs(net.outputs@)[k]
            == net.outputs@[i].1@[j];
    assert(net.root_sigs()[net.dffs@.len() + k] == output_sigs(net.outputs@)[k]);
}

proof fn lemma_output_sigs_has(outputs: Seq<(String, Vec<Sig>)>, i: int, j: int)
    requires
        0 <= i < outputs.len(),
        0 <= j < outputs[i].1@.len(),
    ensures
        exists|k: int|
            0 <= k < output_sigs(outputs).len() && #[trigger] output_sigs(outputs)[k]
                == outputs[i].1@[j],
    decreases outputs.len(),
{
    let rest = outputs.drop_last();
    let a = output_sigs(rest);
    if i == outputs.len() - 1 {
        assert(output_sigs(outputs)[a.len() + j] == outputs[i].1@[j]);
    } else {
        assert(rest[i] == outputs[i]);
        lemma_output_sigs_has(rest, i, j);
        let k = choose|k: int| 0 <= k < a.len() && #[trigger] a[k] == rest[i].1@[j];
        assert(output_sigs(outputs)[k] == a[k]);
    }
}

} // verus!
