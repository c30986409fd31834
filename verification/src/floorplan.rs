//! Where things go: the levers, the rows of gates and the lamps of a layout.
//!
//! Logic is levelised, and level `l` sits at `y = -l * LEVEL_H`. Every gate in
//! a level is laid out along X at a fixed Z, so a level is one long row.
use crate::deep::{lemma_built_spans, lemma_nor_within, lemma_puts_join, puts_within, spans, within};
use crate::netlist::{gate_depth, gate_operands, Gate, Netlist, Sig, Src};
use crate::steps::{built, lemma_built_join, put, refusal, Step};
use crate::tech::{dust, fan_in, lever_steps, moved, nor_out, nor_steps, stamp_lever, stamp_nor};
use crate::world::{Block, Grid, Material, Pos};
use vstd::prelude::*;
use vstd::string::*;

verus! {

/// Vertical pitch between logic levels. A cell body needs 4 (`y-1 ..= y+2`),
/// so this leaves `LEVEL_H - 4` free Y layers between rows for crossings.
pub const LEVEL_H: i32 = 6;

/// Z of every gate row. Cells occupy `z-1 ..= z+2`, leaving the rest of Z open
/// for routing.
pub const GATE_Z: i32 = 0;

/// Spare X columns between adjacent gates in a row.
pub const GATE_GAP: i32 = 6;

/// How many signals there may be: they are numbered by a `u32`, and so are the two clocks
/// and the clear after them.
pub const SIGNALS_MAX: usize = 0xffff_ffff - 2;

/// The last column of a cell, a lever or a lamp. Wires run around them, and the router adds
/// up distances along three axes: in an `i32` there is room for a sum of 32 coordinates.
pub const WIDTH_MAX: i32 = 0x03ff_ffff;

/// The lowest level, in layers below the levers.
pub const DEPTH_MAX: i32 = 0x03ff_ffff;

/// What is to be laid out: the signals of a netlist and the order they are taken in.
pub struct Chart {
    pub gates: Seq<Gate>,
    pub order: Seq<Sig>,
}

pub open spec fn too_large() -> Seq<char> {
    "circuit is too large to place"@
}

/// A floor so far: its cells, where each signal comes out, where each gate stands,
/// how far it reaches, and what stopped it.
pub struct Floor {
    pub cells: Map<Pos, Block>,
    pub at: Map<Sig, Pos>,
    pub base: Map<Sig, Pos>,
    pub widest: int,
    pub stop: Option<Seq<char>>,
}

// --- levers --------------------------------------------------------------------------

/// A signal that a lever stands for.
pub open spec fn is_leaf(g: Gate) -> bool {
    g is Input || g is Reset || g is One || g is Zero
}

/// The leaves among the first `n` signals that are used.
pub open spec fn leaves(c: Chart, n: nat) -> Seq<Sig>
    decreases n,
{
    if n == 0 {
        Seq::empty()
    } else {
        let rest = leaves(c, (n - 1) as nat);
        let s = (n - 1) as u32;
        if c.order.contains(s) && is_leaf(c.gates[s as int]) {
            rest.push(s)
        } else {
            rest
        }
    }
}

/// The block under a leaf's lever.
pub open spec fn leaf_material(g: Gate) -> Material {
    if g is One || g is Zero {
        Material::Clock
    } else {
        Material::PortIn
    }
}

/// Where the dust beside the `i`th lever is. Levers sit three apart so their taps
/// cannot touch.
pub open spec fn tap_at(i: int) -> Pos {
    ((3 * i) as i32, LEVEL_H, (GATE_Z - 3) as i32)
}

/// The `i`th lever, and the dust beside it that gives the router something to start
/// from.
pub open spec fn leaf_steps(g: Gate, i: int) -> Seq<Step> {
    let tap = tap_at(i);
    let mat = leaf_material(g);
    lever_steps(moved(tap, 0, 0, -1), mat, g is One) + seq![
        Step::Put(moved(tap, 0, -1, 0), Block::Solid(mat)),
        Step::Put(tap, dust()),
    ]
}

/// The levers of the first `n` leaves.
pub open spec fn levers_placed(c: Chart, row: Seq<Sig>, n: nat) -> Floor
    decreases n,
{
    if n == 0 {
        Floor { cells: Map::empty(), at: Map::empty(), base: Map::empty(), widest: 1, stop: None }
    } else {
        let f = levers_placed(c, row, (n - 1) as nat);
        if f.stop is Some {
            f
        } else {
            let i = n - 1;
            let b = built(f.cells, leaf_steps(c.gates[row[i] as int], i));
            if b.1 is Some {
                Floor { cells: b.0, stop: b.1, ..f }
            } else {
                Floor {
                    cells: b.0,
                    at: f.at.insert(row[i], tap_at(i)),
                    widest: crate::route::greater(f.widest, 3 * i + 3),
                    ..f
                }
            }
        }
    }
}

// --- gate rows -----------------------------------------------------------------------

/// The sum of the columns that the first `n` operands come out at, and how many of
/// them are placed.
pub open spec fn pull(at: Map<Sig, Pos>, ops: Seq<Sig>, n: nat) -> (int, nat)
    decreases n,
{
    if n == 0 {
        (0, 0)
    } else {
        let rest = pull(at, ops, (n - 1) as nat);
        let s = ops[n - 1];
        if at.contains_key(s) {
            (rest.0 + at[s].0, rest.1 + 1)
        } else {
            rest
        }
    }
}

/// Where a gate would like to sit: the mean X of whatever drives it. A gate with no
/// placed driver has no wish.
pub open spec fn wish(c: Chart, at: Map<Sig, Pos>, g: Sig) -> Option<int> {
    let ops = gate_operands(c.gates[g as int]);
    let p = pull(at, ops, ops.len());
    if p.1 == 0 {
        None
    } else {
        Some(crate::route::quotient(p.0, p.1 as int))
    }
}

/// `a` comes before `b` in a row: by their wishes, then by their numbers. A gate
/// without a wish comes first.
pub open spec fn row_before(c: Chart, at: Map<Sig, Pos>, a: Sig, b: Sig) -> bool {
    match (wish(c, at, a), wish(c, at, b)) {
        (None, None) => a < b,
        (None, Some(_)) => true,
        (Some(_), None) => false,
        (Some(x), Some(y)) => x < y || (x == y && a < b),
    }
}

/// A row with one more gate in its place.
pub open spec fn with_gate(c: Chart, at: Map<Sig, Pos>, row: Seq<Sig>, g: Sig) -> Seq<Sig>
    decreases row.len(),
{
    if row.len() > 0 && row_before(c, at, g, row.last()) {
        with_gate(c, at, row.drop_last(), g).push(row.last())
    } else {
        row.push(g)
    }
}

/// The gates of level `l` among the first `n` signals, in the order of the row.
pub open spec fn row_of(c: Chart, at: Map<Sig, Pos>, l: nat, n: nat) -> Seq<Sig>
    decreases n,
{
    if n == 0 {
        Seq::empty()
    } else {
        let rest = row_of(c, at, l, (n - 1) as nat);
        let g = c.order[n - 1];
        if c.gates[g as int] is Nor && gate_depth(c.gates, g) == l {
            with_gate(c, at, rest, g)
        } else {
            rest
        }
    }
}

/// The column that a gate is placed at: where it wishes, or the first free spot after
/// `x`, and never left of the origin.
pub open spec fn column(w: Option<int>, x: int) -> int {
    let at = match w {
        Some(v) => crate::route::greater(v, x),
        None => x,
    };
    crate::route::greater(at, 0)
}

/// Where a row stands while it is placed: the floor, and the first free column.
pub struct Sweep {
    pub floor: Floor,
    pub x: int,
}

/// The first `n` gates of a row are placed, in a single sweep from left to right.
pub open spec fn swept(c: Chart, start: Floor, l: nat, row: Seq<Sig>, n: nat) -> Sweep
    decreases n,
{
    if n == 0 {
        Sweep { floor: start, x: i32::MIN as int }
    } else {
        let s = swept(c, start, l, row, (n - 1) as nat);
        if s.floor.stop is Some {
            s
        } else {
            let g = row[n - 1];
            let k = fan_in(gate_operands(c.gates[g as int]).len() as int);
            let x = column(wish(c, start.at, g), s.x);
            if x + 2 * k > WIDTH_MAX {
                Sweep { floor: Floor { stop: Some(too_large()), ..s.floor }, ..s }
            } else {
                let base = (x as i32, (-(l * LEVEL_H)) as i32, GATE_Z);
                let b = built(s.floor.cells, nor_steps(base, k));
                let next = x + 2 * (k - 1) + 1 + GATE_GAP;
                if b.1 is Some {
                    Sweep { floor: Floor { cells: b.0, stop: b.1, ..s.floor }, ..s }
                } else {
                    Sweep {
                        floor: Floor {
                            cells: b.0,
                            at: s.floor.at.insert(g, nor_out(base)),
                            base: s.floor.base.insert(g, base),
                            widest: crate::route::greater(s.floor.widest, next),
                            stop: None,
                        },
                        x: next,
                    }
                }
            }
        }
    }
}

/// The rows of the levels up to `l` are placed.
pub open spec fn rows_placed(c: Chart, start: Floor, l: nat) -> Floor
    decreases l,
{
    if l == 0 {
        start
    } else {
        let f = rows_placed(c, start, (l - 1) as nat);
        if f.stop is Some {
            f
        } else {
            let row = row_of(c, f.at, l, c.order.len());
            swept(c, f, l, row, row.len()).floor
        }
    }
}

/// The deepest level among the first `n` signals.
pub open spec fn deepest(c: Chart, n: nat) -> nat
    decreases n,
{
    if n == 0 {
        0
    } else {
        let rest = deepest(c, (n - 1) as nat);
        let g = c.order[n - 1];
        if c.gates[g as int] is Nor && gate_depth(c.gates, g) > rest {
            gate_depth(c.gates, g)
        } else {
            rest
        }
    }
}

// --- placing -------------------------------------------------------------------------

/// The positions that are known.
pub open spec fn known(v: Seq<Option<Pos>>) -> Map<Sig, Pos> {
    Map::new(|s: Sig| s < v.len() && v[s as int] is Some, |s: Sig| v[s as int]->0)
}

/// One more position is known.
pub proof fn lemma_known_insert(v: Seq<Option<Pos>>, s: Sig, p: Pos)
    requires
        s < v.len(),
    ensures
        known(v.update(s as int, Some(p))) == known(v).insert(s, p),
{
    assert(known(v.update(s as int, Some(p))) =~= known(v).insert(s, p));
}

/// A floor that is being laid out.
pub struct Plan {
    pub grid: Grid,
    /// Where each signal comes out.
    pub at: Vec<Option<Pos>>,
    /// Where each gate stands.
    pub base: Vec<Option<Pos>>,
    /// How far the floor reaches along X.
    pub widest: i32,
}

/// Every known position is within `n`.
pub open spec fn all_within(at: Map<Sig, Pos>, n: int) -> bool {
    forall|s: Sig| #[trigger] at.contains_key(s) ==> within(at[s], n)
}

impl Plan {
    /// The plan is at a floor, which is within range.
    pub open spec fn shows(&self, f: Floor, n: nat) -> bool {
        &&& self.grid@ == f.cells
        &&& self.at@.len() == n
        &&& self.base@.len() == n
        &&& known(self.at@) == f.at
        &&& known(self.base@) == f.base
        &&& self.widest == f.widest
        &&& f.stop is None
        &&& in_range(f)
    }
}

/// A floor whose cells and positions are within range.
pub open spec fn in_range(f: Floor) -> bool {
    &&& spans(f.cells, 0x0900_0000)
    &&& all_within(f.at, 0x0900_0000)
    &&& all_within(f.base, 0x0400_0000)
    &&& 0 <= f.widest <= 0x0600_0000
}

/// A gate fits in a row.
pub open spec fn inputs_few(c: Chart) -> bool {
    forall|g: Sig| g < c.gates.len() ==> 2 * gate_operands(#[trigger] c.gates[g as int]).len() <= WIDTH_MAX
}

/// A chart whose signals are all there.
pub open spec fn chart_wf(c: Chart) -> bool {
    &&& c.gates.len() <= SIGNALS_MAX
    &&& forall|i: int| 0 <= i < c.order.len() ==> (#[trigger] c.order[i]) < c.gates.len()
    &&& c.order.no_duplicates()
}

/// A chart that there are columns and layers for.
pub open spec fn chart_ok(c: Chart) -> bool {
    &&& chart_wf(c)
    &&& inputs_few(c)
    &&& 3 * leaves(c, c.gates.len()).len() <= WIDTH_MAX
    &&& LEVEL_H * deepest(c, c.order.len()) <= DEPTH_MAX
}

proof fn lemma_leaf_within(g: Gate, i: int)
    requires
        0 <= i <= 0x0155_5555,
    ensures
        puts_within(leaf_steps(g, i), 0x0400_0000),
{
    let tap = tap_at(i);
    let mat = leaf_material(g);
    let a = lever_steps(moved(tap, 0, 0, -1), mat, g is One);
    let b = seq![Step::Put(moved(tap, 0, -1, 0), Block::Solid(mat)), Step::Put(tap, dust())];
    assert(puts_within(a, 0x0400_0000));
    assert(puts_within(b, 0x0400_0000));
    lemma_puts_join(a, b, 0x0400_0000);
}

/// Place the lever of a leaf.
fn place_leaf(g: &mut Grid, src: &Src, i: i32) -> (r: Result<(), String>)
    requires
        0 <= i <= 0x0155_5555,
    ensures
        built(old(g)@, leaf_steps(src@, i as int)) == (final(g)@, refusal(r)),
{
    let x: i32 = i * 3;
    let (mat, on) = match src {
        Src::One => (Material::Clock, true),
        Src::Zero => (Material::Clock, false),
        _ => (Material::PortIn, false),
    };
    let tap: Pos = (x, LEVEL_H, GATE_Z - 3);
    let ghost a = lever_steps(moved(tap, 0, 0, -1), mat, on);
    let ghost b = seq![Step::Put(moved(tap, 0, -1, 0), Block::Solid(mat)), Step::Put(tap, dust())];
    proof {
        lemma_built_join(g@, a, b);
    }
    stamp_lever(g, (x, LEVEL_H, GATE_Z - 4), mat, on)?;
    let ghost start = g@;
    assert(b.take(0) =~= Seq::empty());
    put(g, (tap.0, tap.1 - 1, tap.2), Block::Solid(mat), Ghost(start), Ghost(b), Ghost(0))?;
    put(g, tap, Block::Dust { power: 0 }, Ghost(start), Ghost(b), Ghost(1))?;
    assert(b.take(2) =~= b);
    Ok(())
}

/// Which signals are used.
pub fn used_signals(order: &Vec<Sig>, n: usize) -> (used: Vec<bool>)
    requires
        forall|i: int| 0 <= i < order@.len() ==> (#[trigger] order@[i]) < n,
        n <= u32::MAX,
    ensures
        used@.len() == n,
        forall|s: u32| s < n ==> #[trigger] used@[s as int] == order@.contains(s),
{
    let mut used: Vec<bool> = Vec::new();
    for i in 0..n
        invariant
            used@.len() == i,
            forall|j: int| 0 <= j < i ==> !#[trigger] used@[j],
    {
        used.push(false);
    }
    for i in 0..order.len()
        invariant
            used@.len() == n,
            forall|i: int| 0 <= i < order@.len() ==> (#[trigger] order@[i]) < n,
            n <= u32::MAX,
            forall|s: u32| s < n ==> #[trigger] used@[s as int] == order@.take(i as int).contains(s),
    {
        let x: u32 = order[i];
        assert(order@[i as int] < n);
        let ghost before = used@;
        used.set(x as usize, true);
        proof {
            let a = order@.take(i as int);
            assert(order@.take(i + 1) =~= a.push(x));
            assert forall|s: u32| s < n implies #[trigger] used@[s as int] == order@.take(i + 1).contains(s) by {
                assert(before[s as int] == a.contains(s));
                crate::route::lemma_has_push(a, x, s);
            }
        }
    }
    assert(order@.take(order@.len() as int) =~= order@);
    used
}

/// The leaves that are used, by number.
pub fn leaf_row(net: &Netlist, used: &Vec<bool>, Ghost(c): Ghost<Chart>) -> (row: Vec<Sig>)
    requires
        c.gates == net.gates(),
        chart_wf(c),
        used@.len() == c.gates.len(),
        forall|s: u32| s < c.gates.len() ==> #[trigger] used@[s as int] == c.order.contains(s),
    ensures
        row@ == leaves(c, c.gates.len()),
        row@.len() <= c.gates.len(),
        forall|i: int| 0 <= i < row@.len() ==> (#[trigger] row@[i]) < c.gates.len(),
{
    let mut row: Vec<Sig> = Vec::new();
    for i in 0..net.sigs.len()
        invariant
            c.gates == net.gates(),
            chart_wf(c),
            used@.len() == c.gates.len(),
            forall|s: u32| s < c.gates.len() ==> #[trigger] used@[s as int] == c.order.contains(s),
            row@ == leaves(c, i as nat),
            row@.len() <= i,
            forall|j: int| 0 <= j < row@.len() ==> (#[trigger] row@[j]) < c.gates.len(),
    {
        assert(net.gates()[i as int] == net.sigs@[i as int]@);
        let leaf = match &net.sigs[i] {
            Src::Nor(_) => false,
            Src::DffQ(_) => false,
            _ => true,
        };
        assert(used@[(i as u32) as int] == c.order.contains(i as u32));
        if used[i] && leaf {
            row.push(i as u32);
        }
    }
    row
}

/// Place the levers.
pub fn place_levers(net: &Netlist, used: &Vec<bool>, Ghost(c): Ghost<Chart>) -> (r: Result<Plan, String>)
    requires
        c.gates == net.gates(),
        chart_ok(c),
        used@.len() == c.gates.len(),
        forall|s: u32| s < c.gates.len() ==> #[trigger] used@[s as int] == c.order.contains(s),
    ensures
        ({
            let row = leaves(c, c.gates.len());
            let f = levers_placed(c, row, row.len());
            match r {
                Ok(p) => p.shows(f, c.gates.len()) && spans(f.cells, 0x0400_0000),
                Err(m) => f.stop == Some(m@),
            }
        }),
{
    let row = leaf_row(net, used, Ghost(c));
    let n: usize = net.sigs.len();
    let mut at: Vec<Option<Pos>> = Vec::new();
    let mut base: Vec<Option<Pos>> = Vec::new();
    for i in 0..n
        invariant
            at@.len() == i,
            base@.len() == i,
            forall|j: int| 0 <= j < i ==> #[trigger] at@[j] is None,
            forall|j: int| 0 <= j < i ==> #[trigger] base@[j] is None,
    {
        at.push(None);
        base.push(None);
    }
    let mut p = Plan { grid: Grid::new(), at, base, widest: 1 };
    proof {
        assert(known(p.at@) =~= Map::empty());
        assert(known(p.base@) =~= Map::empty());
    }
    for i in 0..row.len()
        invariant
            c.gates == net.gates(),
            chart_ok(c),
            n == c.gates.len(),
            row@ == leaves(c, c.gates.len()),
            row@.len() <= c.gates.len(),
            forall|i: int| 0 <= i < row@.len() ==> (#[trigger] row@[i]) < c.gates.len(),
            p.shows(levers_placed(c, row@, i as nat), n as nat),
            spans(levers_placed(c, row@, i as nat).cells, 0x0400_0000),
    {
        let s: Sig = row[i];
        assert(row@[i as int] < c.gates.len());
        assert(net.gates()[s as int] == net.sigs@[s as int]@);
        let ghost f = levers_placed(c, row@, i as nat);
        proof {
            lemma_leaf_within(c.gates[s as int], i as int);
            lemma_built_spans(f.cells, leaf_steps(c.gates[s as int], i as int), 0x0400_0000);
            lemma_known_insert(p.at@, s, tap_at(i as int));
        }
        match place_leaf(&mut p.grid, &net.sigs[s as usize], i as i32) {
            Ok(_) => {},
            Err(e) => {
                proof {
                    lemma_levers_stop(c, row@, (i + 1) as nat, row@.len());
                }
                return Err(e);
            },
        }
        // A dust node beside the lever gives the router something to start from.
        p.at.set(s as usize, Some((i as i32 * 3, LEVEL_H, GATE_Z - 3)));
        if p.widest < i as i32 * 3 + 3 {
            p.widest = i as i32 * 3 + 3;
        }
        proof {
            let next = levers_placed(c, row@, (i + 1) as nat);
            assert(all_within(next.at, 0x0900_0000));
        }
    }
    Ok(p)
}

proof fn lemma_levers_stop(c: Chart, row: Seq<Sig>, n: nat, m: nat)
    requires
        levers_placed(c, row, n).stop is Some,
        n <= m,
    ensures
        levers_placed(c, row, m) == levers_placed(c, row, n),
    decreases m,
{
    if n < m {
        lemma_levers_stop(c, row, n, (m - 1) as nat);
    }
}

/// The level of every signal.
pub fn levelize(net: &Netlist) -> (level: Vec<u32>)
    requires
        net.wf(),
        net.gates().len() <= 0xffff_fffd,
    ensures
        level@.len() == net.gates().len(),
        forall|s: u32| s < net.gates().len() ==> #[trigger] level@[s as int] == gate_depth(net.gates(), s),
        forall|s: u32| s < net.gates().len() ==> #[trigger] level@[s as int] <= s,
{
    let mut level: Vec<u32> = Vec::new();
    let ghost gates = net.gates();
    for i in 0..net.sigs.len()
        invariant
            net.wf(),
            gates == net.gates(),
            gates.len() <= 0xffff_fffd,
            level@.len() == i,
            forall|s: u32| s < i ==> #[trigger] level@[s as int] == gate_depth(gates, s),
            forall|s: u32| s < i ==> #[trigger] level@[s as int] <= s,
    {
        let s: u32 = i as u32;
        assert(crate::netlist::gate_wf(gates[i as int], i as int, net.dffs@.len()));
        assert(gates[i as int] == net.sigs@[i as int]@);
        let d: u32 = match &net.sigs[i] {
            Src::Nor(v) => {
                let mut d: u32 = 0;
                for k in 0..v.len()
                    invariant
                        i < gates.len(),
                        s == i,
                        gates.len() <= 0xffff_fffd,
                        gates[i as int] == Gate::Nor(v@),
                        crate::netlist::gate_wf(gates[i as int], i as int, net.dffs@.len()),
                        level@.len() == i,
                        forall|s: u32| s < i ==> #[trigger] level@[s as int] == gate_depth(gates, s),
                        forall|s: u32| s < i ==> #[trigger] level@[s as int] <= s,
                        d == crate::netlist::operand_depth(gates, s, k as nat),
                        k == 0 ==> d == 0,
                        d < i || d == 0,
                {
                    let o: u32 = v[k];
                    assert(v@[k as int] < i);
                    assert(level@[o as int] == gate_depth(gates, o));
                    assert(level@[o as int] <= o);
                    let x: u32 = level[o as usize];
                    if x > d {
                        d = x;
                    }
                }
                d + 1
            },
            _ => 0,
        };
        level.push(d);
        proof {
            assert forall|q: u32| q < i + 1 implies #[trigger] level@[q as int] == gate_depth(gates, q) by {}
            assert(d <= s) by {
                if let Gate::Nor(v) = gates[i as int] {
                    lemma_nor_not_first(net, i as int);
                }
            }
        }
    }
    level
}

/// The first two signals of a netlist are its constants, so no gate is number zero.
proof fn lemma_nor_not_first(net: &Netlist, i: int)
    requires
        net.wf(),
        0 <= i < net.gates().len(),
        net.gates()[i] is Nor,
    ensures
        i >= 1,
{
}

/// Where a gate would like to sit.
fn wish_of(net: &Netlist, at: &Vec<Option<Pos>>, g: Sig, Ghost(c): Ghost<Chart>) -> (w: Option<i64>)
    requires
        c.gates == net.gates(),
        net.wf(),
        g < c.gates.len(),
        c.gates.len() <= 0xffff_fffd,
        at@.len() == c.gates.len(),
        all_within(known(at@), 0x0900_0000),
    ensures
        match w {
            Some(v) => wish(c, known(at@), g) == Some(v as int) && -0x0900_0000 <= v <= 0x0900_0000,
            None => wish(c, known(at@), g) is None,
        },
{
    let ops = net.operands(g);
    assert(crate::netlist::gate_wf(net.gates()[g as int], g as int, net.dffs@.len()));
    let mut sum: i64 = 0;
    let mut count: i64 = 0;
    let n: usize = ops.len();
    proof {
        lemma_operand_count(c.gates[g as int], g as int, net.dffs@.len());
    }
    for k in 0..n
        invariant
            n == ops@.len() <= 0xffff_fffd,
            g < c.gates.len(),
            c.gates.len() <= 0xffff_fffd,
            ops@ == gate_operands(c.gates[g as int]),
            crate::netlist::gate_wf(c.gates[g as int], g as int, net.dffs@.len()),
            at@.len() == c.gates.len(),
            all_within(known(at@), 0x0900_0000),
            (sum as int, count as nat) == pull(known(at@), ops@, k as nat),
            0 <= count <= k,
            -0x0900_0000 * count <= sum <= 0x0900_0000 * count,
    {
        let o: Sig = ops[k];
        assert(ops@[k as int] < g);
        match at[o as usize] {
            Some(p) => {
                assert(known(at@).contains_key(o) && known(at@)[o] == p);
                sum = sum + p.0 as i64;
                count = count + 1;
            },
            None => {},
        }
    }
    if count == 0 {
        return None;
    }
    let v: i64 = if sum < 0 {
        -((-sum) / count)
    } else {
        sum / count
    };
    proof {
        if sum < 0 {
            assert(0 <= (-sum) / count as int <= 0x0900_0000) by (nonlinear_arith)
                requires
                    0 <= -sum <= 0x0900_0000 * count,
                    count > 0,
            ;
        } else {
            assert(0 <= sum / count <= 0x0900_0000) by (nonlinear_arith)
                requires
                    0 <= sum <= 0x0900_0000 * count,
                    count > 0,
            ;
        }
    }
    Some(v)
}

/// A gate has fewer operands than its number.
pub proof fn lemma_operand_count(g: Gate, i: int, dffs: nat)
    requires
        crate::netlist::gate_wf(g, i, dffs),
        i >= 0,
    ensures
        gate_operands(g).len() <= i,
{
    if let Gate::Nor(v) = g {
        if v.len() > 0 {
            lemma_rising(v, v.len() - 1);
        }
    }
}

proof fn lemma_rising(v: Seq<Sig>, k: int)
    requires
        crate::netlist::canonical(v),
        0 <= k < v.len(),
    ensures
        v[k] >= k,
    decreases k,
{
    if k > 0 {
        lemma_rising(v, k - 1);
        assert(v[k - 1] < v[k]);
    }
}

fn goes_before(a: Sig, wa: Option<i64>, b: Sig, wb: Option<i64>) -> (r: bool)
    ensures
        r == match (wa, wb) {
            (None, None) => a < b,
            (None, Some(_)) => true,
            (Some(_), None) => false,
            (Some(x), Some(y)) => x < y || (x == y && a < b),
        },
{
    match wa {
        None => match wb {
            None => a < b,
            Some(_) => true,
        },
        Some(x) => match wb {
            None => false,
            Some(y) => x < y || (x == y && a < b),
        },
    }
}

proof fn lemma_with_gate(c: Chart, at: Map<Sig, Pos>, row: Seq<Sig>, g: Sig, k: int)
    requires
        0 <= k <= row.len(),
        forall|i: int| k <= i < row.len() ==> row_before(c, at, g, #[trigger] row[i]),
        k > 0 ==> !row_before(c, at, g, row[k - 1]),
    ensures
        with_gate(c, at, row, g) == row.insert(k, g),
    decreases row.len(),
{
    if k == row.len() {
        assert(row.insert(k, g) =~= row.push(g));
        if row.len() > 0 {
            assert(row[row.len() - 1] == row.last());
        }
    } else {
        let rest = row.drop_last();
        assert(row_before(c, at, g, row[row.len() - 1]));
        assert forall|i: int| k <= i < rest.len() implies row_before(c, at, g, #[trigger] rest[i]) by {
            assert(rest[i] == row[i]);
        }
        lemma_with_gate(c, at, rest, g, k);
        assert(row.insert(k, g) =~= rest.insert(k, g).push(row.last()));
    }
}

/// The wishes of a row are known.
spec fn wishes_hold(c: Chart, at: Map<Sig, Pos>, row: Seq<Sig>, ws: Seq<Option<i64>>) -> bool {
    &&& ws.len() == row.len()
    &&& forall|i: int|
        0 <= i < row.len() ==> wish_matches(c, at, #[trigger] row[i], ws[i])
}

spec fn wish_matches(c: Chart, at: Map<Sig, Pos>, g: Sig, w: Option<i64>) -> bool {
    match w {
        Some(v) => wish(c, at, g) == Some(v as int) && -0x0900_0000 <= v <= 0x0900_0000,
        None => wish(c, at, g) is None,
    }
}

/// The gates of a level, in the order of the row, and their wishes.
fn make_row(
    net: &Netlist,
    order: &Vec<Sig>,
    level: &Vec<u32>,
    at: &Vec<Option<Pos>>,
    l: u32,
    Ghost(c): Ghost<Chart>,
) -> (r: (Vec<Sig>, Vec<Option<i64>>))
    requires
        c.gates == net.gates(),
        c.order == order@,
        net.wf(),
        chart_ok(c),
        level@.len() == c.gates.len(),
        forall|s: u32| s < c.gates.len() ==> #[trigger] level@[s as int] == gate_depth(c.gates, s),
        at@.len() == c.gates.len(),
        all_within(known(at@), 0x0900_0000),
    ensures
        r.0@ == row_of(c, known(at@), l as nat, c.order.len()),
        wishes_hold(c, known(at@), r.0@, r.1@),
        forall|i: int| 0 <= i < r.0@.len() ==> (#[trigger] r.0@[i]) < c.gates.len(),
{
    let mut row: Vec<Sig> = Vec::new();
    let mut ws: Vec<Option<i64>> = Vec::new();
    for i in 0..order.len()
        invariant
            c.gates == net.gates(),
            c.order == order@,
            net.wf(),
            chart_ok(c),
            level@.len() == c.gates.len(),
            forall|s: u32| s < c.gates.len() ==> #[trigger] level@[s as int] == gate_depth(c.gates, s),
            at@.len() == c.gates.len(),
            all_within(known(at@), 0x0900_0000),
            row@ == row_of(c, known(at@), l as nat, i as nat),
            wishes_hold(c, known(at@), row@, ws@),
            forall|i: int| 0 <= i < row@.len() ==> (#[trigger] row@[i]) < c.gates.len(),
    {
        let g: Sig = order[i];
        assert(c.order[i as int] < c.gates.len());
        assert(level@[g as int] == gate_depth(c.gates, g));
        assert(net.gates()[g as int] == net.sigs@[g as int]@);
        let is_nor = match &net.sigs[g as usize] {
            Src::Nor(_) => true,
            _ => false,
        };
        if is_nor && level[g as usize] == l {
            let w = wish_of(net, at, g, Ghost(c));
            let mut k: usize = row.len();
            while k > 0 && goes_before(g, w, row[k - 1], ws[k - 1])
                invariant
                    k <= row@.len(),
                    wishes_hold(c, known(at@), row@, ws@),
                    wish_matches(c, known(at@), g, w),
                    forall|i: int| k <= i < row@.len() ==> row_before(c, known(at@), g, #[trigger] row@[i]),
                decreases k,
            {
                assert(wish_matches(c, known(at@), row@[k - 1], ws@[k - 1]));
                k = k - 1;
            }
            let ghost had = row@;
            let ghost had_ws = ws@;
            proof {
                if k > 0 {
                    assert(wish_matches(c, known(at@), row@[k - 1], ws@[k - 1]));
                }
                lemma_with_gate(c, known(at@), row@, g, k as int);
            }
            row.insert(k, g);
            ws.insert(k, w);
            proof {
                assert forall|j: int| 0 <= j < row@.len() implies wish_matches(c, known(at@), #[trigger] row@[j], ws@[j]) by {
                    if j < k {
                        assert(row@[j] == had[j] && ws@[j] == had_ws[j]);
                    } else if j > k {
                        assert(row@[j] == had[j - 1] && ws@[j] == had_ws[j - 1]);
                    }
                }
                assert forall|j: int| 0 <= j < row@.len() implies (#[trigger] row@[j]) < c.gates.len() by {
                    if j < k {
                        assert(row@[j] == had[j]);
                    } else if j > k {
                        assert(row@[j] == had[j - 1]);
                    }
                }
            }
        }
    }
    (row, ws)
}

/// Place the gates of a row.
fn sweep(
    net: &Netlist,
    plan: Plan,
    row: &Vec<Sig>,
    ws: &Vec<Option<i64>>,
    l: u32,
    Ghost(c): Ghost<Chart>,
    Ghost(f): Ghost<Floor>,
) -> (r: Result<Plan, String>)
    requires
        c.gates == net.gates(),
        net.wf(),
        inputs_few(c),
        l <= 0x00aa_aaaa,
        plan.shows(f, c.gates.len()),
        wishes_hold(c, f.at, row@, ws@),
        forall|i: int| 0 <= i < row@.len() ==> (#[trigger] row@[i]) < c.gates.len(),
    ensures
        match r {
            Ok(p) => p.shows(swept(c, f, l as nat, row@, row@.len()).floor, c.gates.len()),
            Err(m) => swept(c, f, l as nat, row@, row@.len()).floor.stop == Some(m@),
        },
{
    let mut p = plan;
    let mut x: i32 = i32::MIN;
    for i in 0..row.len()
        invariant
            c.gates == net.gates(),
            net.wf(),
            inputs_few(c),
            l <= 0x00aa_aaaa,
            wishes_hold(c, f.at, row@, ws@),
            forall|i: int| 0 <= i < row@.len() ==> (#[trigger] row@[i]) < c.gates.len(),
            p.shows(swept(c, f, l as nat, row@, i as nat).floor, c.gates.len()),
            x == swept(c, f, l as nat, row@, i as nat).x,
            x <= WIDTH_MAX + GATE_GAP,
    {
        let g: Sig = row[i];
        assert(row@[i as int] < c.gates.len());
        assert(wish_matches(c, f.at, row@[i as int], ws@[i as int]));
        let ghost s = swept(c, f, l as nat, row@, i as nat);
        let ops = net.operands(g);
        assert(2 * gate_operands(c.gates[g as int]).len() <= WIDTH_MAX);
        let k: usize = if ops.len() < 1 {
            1
        } else {
            ops.len()
        };
        let mut at: i32 = match ws[i] {
            Some(v) => if v as i32 > x {
                v as i32
            } else {
                x
            },
            None => x,
        };
        if at < 0 {
            at = 0;
        }
        assert(at == column(wish(c, f.at, g), s.x));
        if at > WIDTH_MAX - 2 * k as i32 {
            proof {
                lemma_sweep_stops(c, f, l as nat, row@, (i + 1) as nat, row@.len());
            }
            return Err(String::from_str("circuit is too large to place"));
        }
        let base: Pos = (at, -(l as i32 * LEVEL_H), GATE_Z);
        proof {
            lemma_nor_within(base, k as nat, 0x0900_0000);
            lemma_built_spans(s.floor.cells, nor_steps(base, k as nat), 0x0900_0000);
            lemma_known_insert(p.at@, g, nor_out(base));
            lemma_known_insert(p.base@, g, base);
        }
        match stamp_nor(&mut p.grid, base, k) {
            Ok(cell) => {
                x = at + cell.width + GATE_GAP;
                p.at.set(g as usize, Some(cell.out));
                p.base.set(g as usize, Some(base));
                if p.widest < x {
                    p.widest = x;
                }
            },
            Err(e) => {
                proof {
                    lemma_sweep_stops(c, f, l as nat, row@, (i + 1) as nat, row@.len());
                }
                return Err(e);
            },
        }
        proof {
            let next = swept(c, f, l as nat, row@, (i + 1) as nat).floor;
            assert(all_within(next.at, 0x0900_0000));
            assert(all_within(next.base, 0x0400_0000));
        }
    }
    Ok(p)
}

proof fn lemma_sweep_stops(c: Chart, f: Floor, l: nat, row: Seq<Sig>, n: nat, m: nat)
    requires
        swept(c, f, l, row, n).floor.stop is Some,
        n <= m,
    ensures
        swept(c, f, l, row, m) == swept(c, f, l, row, n),
    decreases m,
{
    if n < m {
        lemma_sweep_stops(c, f, l, row, n, (m - 1) as nat);
    }
}

/// Place the gates: one row per level, ordered within the row by the average X of the
/// drivers feeding them.
///
/// This is the "place" half of place-and-route. Packing gates in topological order
/// scatters connected cells across the whole row, so every wire is long. Barycenter
/// ordering is the standard cheap heuristic: put each gate near whatever drives it.
/// Because a level only depends on shallower levels, every driver is already placed
/// by the time its consumers are ordered. Sorted by desired X, a single left-to-right
/// sweep places each gate at its wish or at the first free spot after its
/// predecessor, whichever is further right.
pub fn place_rows(
    net: &Netlist,
    order: &Vec<Sig>,
    level: &Vec<u32>,
    plan: Plan,
    max_level: u32,
    Ghost(c): Ghost<Chart>,
    Ghost(f): Ghost<Floor>,
) -> (r: Result<Plan, String>)
    requires
        c.gates == net.gates(),
        c.order == order@,
        net.wf(),
        chart_ok(c),
        max_level <= 0x00aa_aaaa,
        level@.len() == c.gates.len(),
        forall|s: u32| s < c.gates.len() ==> #[trigger] level@[s as int] == gate_depth(c.gates, s),
        plan.shows(f, c.gates.len()),
    ensures
        match r {
            Ok(p) => p.shows(rows_placed(c, f, max_level as nat), c.gates.len()),
            Err(m) => rows_placed(c, f, max_level as nat).stop == Some(m@),
        },
{
    let mut p = plan;
    for i in 0..max_level
        invariant
            c.gates == net.gates(),
            c.order == order@,
            net.wf(),
            chart_ok(c),
            max_level <= 0x00aa_aaaa,
            level@.len() == c.gates.len(),
            forall|s: u32| s < c.gates.len() ==> #[trigger] level@[s as int] == gate_depth(c.gates, s),
            p.shows(rows_placed(c, f, i as nat), c.gates.len()),
    {
        let l: u32 = i + 1;
        let ghost now = rows_placed(c, f, i as nat);
        let (row, ws) = make_row(net, order, level, &p.at, l, Ghost(c));
        match sweep(net, p, &row, &ws, l, Ghost(c), Ghost(now)) {
            Ok(next) => {
                p = next;
            },
            Err(e) => {
                proof {
                    lemma_rows_stop(c, f, l as nat, max_level as nat);
                }
                return Err(e);
            },
        }
    }
    Ok(p)
}

proof fn lemma_rows_stop(c: Chart, f: Floor, n: nat, m: nat)
    requires
        rows_placed(c, f, n).stop is Some,
        n <= m,
    ensures
        rows_placed(c, f, m) == rows_placed(c, f, n),
    decreases m,
{
    if n < m {
        lemma_rows_stop(c, f, n, (m - 1) as nat);
    }
}

/// The deepest level.
pub fn max_level_of(net: &Netlist, order: &Vec<Sig>, level: &Vec<u32>, Ghost(c): Ghost<Chart>) -> (m: u32)
    requires
        c.gates == net.gates(),
        c.order == order@,
        chart_wf(c),
        level@.len() == c.gates.len(),
        forall|s: u32| s < c.gates.len() ==> #[trigger] level@[s as int] == gate_depth(c.gates, s),
        forall|s: u32| s < c.gates.len() ==> #[trigger] level@[s as int] <= s,
    ensures
        m == deepest(c, c.order.len()),
        m <= 0xffff_fffd,
{
    let mut m: u32 = 0;
    for i in 0..order.len()
        invariant
            c.gates == net.gates(),
            c.order == order@,
            chart_wf(c),
            level@.len() == c.gates.len(),
            forall|s: u32| s < c.gates.len() ==> #[trigger] level@[s as int] == gate_depth(c.gates, s),
            forall|s: u32| s < c.gates.len() ==> #[trigger] level@[s as int] <= s,
            m == deepest(c, i as nat),
            m <= 0xffff_fffd,
    {
        let g: Sig = order[i];
        assert(c.order[i as int] < c.gates.len());
        assert(level@[g as int] == gate_depth(c.gates, g));
        assert(net.gates()[g as int] == net.sigs@[g as int]@);
        if let Src::Nor(_) = &net.sigs[g as usize] {
            if level[g as usize] > m {
                m = level[g as usize];
            }
        }
    }
    m
}

} // verus!
