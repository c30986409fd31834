//! Placement and routing: gate netlist -> a 3D block world.
//!
//! # Floorplan
//!
//! Logic is levelised, and level `l` sits at `y = -l * LEVEL_H`. Every gate in
//! a level is laid out along X at a fixed Z, so a level is one long row. Spacing
//! levels apart leaves free Y layers between them, which is where crossings go.
//!
//! Everything between and around the level rows is free space that
//! [`crate::route`] searches with A*. Keepout in the router guarantees two nets
//! can never touch, so shorts are structurally impossible rather than merely
//! unlikely.
pub use crate::bank::{place_register_bank, RegisterBank};
pub use crate::floorplan::levelize;
use crate::bank::{bank_ports, banked, ctrl_tap, flops_within, place_bank, Banked};
use crate::clocking::{
    bank_fed, bank_kept, feed_bank, lamp_pads, lemma_bits_grow, lemma_spine_ok, outer_shown, outputs_of,
    port_bits, port_passed, ports_routed, route_ports, Outer,
};
use crate::controls::{
    all_owned, data_apart, lemma_levers_drive, lemma_outputs_owned, levers_drive, outputs_owned, ports_differ,
};
use crate::deep::{spans, within};
use crate::floorplan::{
    all_within, chart_ok, deepest, in_range, known, leaves, levers_placed, max_level_of,
    place_levers, place_rows, rows_placed, too_large, used_signals, Chart, Floor, Plan,
    chart_wf, inputs_few, leaf_row, DEPTH_MAX, GATE_Z, LEVEL_H, SIGNALS_MAX, WIDTH_MAX,
};
use crate::flop::{tuning_ok, DffPorts};
use crate::graph::{is_topo_order, walked};
use crate::keepout::{inputs_apart, lemma_inputs_apart, routes_apart};
use crate::ownership::{bank_of, lemma_ends_owned};
use crate::negotiate::{
    all_waiting, list_work, nets_ok, route_all, settled, work_listed, Nets, Queue, RISER_Z0,
};
use crate::netlist::{gate_operands, row_wf, Dff, Gate, Netlist, Sig, Src};
use crate::pins::{lemma_pins_wired, pins_wired};
use crate::posmap::PosMap;
use crate::relay::{owned, sources_ok, MAX_DROP};
use crate::route::{
    board_from, greater, lemma_apart_as_routed, lesser, routed_apart, usual_tuning, NetId, Router,
    Tuning, Works,
};
use crate::steps::built;
use crate::tech::{fan_in, moved, nor_feeds, nor_out};
use crate::text::{decimal, push_decimal};
use crate::wiring::{
    keep_shells, known_spines, lamp_at, lamp_steps, lay_spines, lay_stubs, pad_of, place_lamps,
    running, shells_kept, spines_laid, stubs_laid, Spined,
};
use crate::world::{bounding, Block, Grid, Pos};
use std::collections::HashMap;
use vstd::prelude::*;
use vstd::string::*;

verus! {

broadcast use vstd::std_specs::hash::group_hash_axioms;

/// Z advance per relay stage. Must exceed MAX_DROP so each stage can descend
/// monotonically instead of doubling back.
pub const RISER_PITCH: i32 = 12;

// --- the routing volume ------------------------------------------------------------------

/// How many gate inputs there are among the first `n` signals.
pub open spec fn inputs_among(c: Chart, n: nat) -> nat
    decreases n,
{
    if n == 0 {
        0
    } else {
        inputs_among(c, (n - 1) as nat) + gate_operands(c.gates[c.order[n - 1] as int]).len()
    }
}

/// How many gates there are among the first `n` signals.
pub open spec fn gates_among(c: Chart, n: nat) -> nat
    decreases n,
{
    if n == 0 {
        0
    } else {
        gates_among(c, (n - 1) as nat) + if c.gates[c.order[n - 1] as int] is Nor {
            1nat
        } else {
            0
        }
    }
}

/// The corners of the smallest box that holds every cell.
pub open spec fn box_of(cells: Map<Pos, Block>) -> (Pos, Pos) {
    if cells == Map::<Pos, Block>::empty() {
        ((0, 0, 0), (0, 0, 0))
    } else {
        choose|b: (Pos, Pos)| bounding(cells, b.0, b.1)
    }
}

proof fn lemma_box(cells: Map<Pos, Block>, lo: Pos, hi: Pos)
    requires
        bounding(cells, lo, hi),
    ensures
        box_of(cells) == (lo, hi),
{
    let p = choose|p: Pos| #[trigger] cells.contains_key(p) && p.0 == lo.0;
    assert(cells.contains_key(p));
    let b = (lo, hi);
    assert(bounding(cells, b.0, b.1));
    let a = box_of(cells);
    assert(bounding(cells, a.0, a.1));
}

/// How far the volume reaches along Z: the rows of gates, and the deepest relay chain.
pub open spec fn reach_z(c: Chart) -> int {
    let n = c.order.len();
    let stages = ((deepest(c, n) + 2) * LEVEL_H) / (MAX_DROP as int) + 2;
    greater(gates_among(c, n) as int, 8) * 2 + 24 + RISER_Z0 + stages * RISER_PITCH
}

/// The volume that routes keep to: the rows of gates, generous free space around them, and
/// everything that is placed already.
pub open spec fn volume(c: Chart, f: Floor) -> (Pos, Pos) {
    let n = c.order.len();
    let (lo, hi) = box_of(f.cells);
    let span = greater(f.widest + 8 + 3 * greater(inputs_among(c, n) as int, 1), 32);
    let depth = reach_z(c);
    (
        (
            lesser(-8, lo.0 - 8) as i32,
            lesser(-(deepest(c, n) + 1) * LEVEL_H - 8, lo.1 - 8) as i32,
            lesser(GATE_Z - depth, lo.2 - 8) as i32,
        ),
        (
            greater(span, hi.0 + 8) as i32,
            greater(LEVEL_H + 4, hi.1 + 8) as i32,
            greater(GATE_Z + depth, hi.2 + 8) as i32,
        ),
    )
}

fn count_inputs(net: &Netlist, order: &Vec<Sig>, Ghost(c): Ghost<Chart>) -> (n: Option<u32>)
    requires
        c.gates == net.gates(),
        c.order == order@,
        chart_wf(c),
    ensures
        match n {
            Some(k) => k == inputs_among(c, c.order.len()) && k <= INPUTS_MAX,
            None => inputs_among(c, c.order.len()) > INPUTS_MAX,
        },
{
    let mut n: u32 = 0;
    for i in 0..order.len()
        invariant
            c.gates == net.gates(),
            c.order == order@,
            chart_wf(c),
            n == inputs_among(c, i as nat),
            n <= INPUTS_MAX,
    {
        let g: Sig = order[i];
        assert(c.order[i as int] < c.gates.len());
        let k: usize = net.operands(g).len();
        if k > INPUTS_MAX as usize || n + k as u32 > INPUTS_MAX {
            proof {
                lemma_inputs_grow(c, (i + 1) as nat, c.order.len());
            }
            return None;
        }
        n = n + k as u32;
    }
    Some(n)
}

proof fn lemma_inputs_grow(c: Chart, n: nat, m: nat)
    requires
        n <= m,
    ensures
        inputs_among(c, n) <= inputs_among(c, m),
    decreases m,
{
    if n < m {
        lemma_inputs_grow(c, n, (m - 1) as nat);
    }
}

fn count_gates(net: &Netlist, order: &Vec<Sig>, Ghost(c): Ghost<Chart>) -> (n: usize)
    requires
        c.gates == net.gates(),
        c.order == order@,
        chart_wf(c),
    ensures
        n == gates_among(c, c.order.len()),
        n <= order@.len(),
{
    let mut n: usize = 0;
    for i in 0..order.len()
        invariant
            c.gates == net.gates(),
            c.order == order@,
            chart_wf(c),
            n == gates_among(c, i as nat),
            n <= i,
    {
        let g: Sig = order[i];
        assert(c.order[i as int] < c.gates.len());
        assert(net.gates()[g as int] == net.sigs@[g as int]@);
        if let Src::Nor(_) = &net.sigs[g as usize] {
            n = n + 1;
        }
    }
    n
}

/// Is the volume deep enough along Z?
fn reaches(gates: usize, max_level: u32, Ghost(c): Ghost<Chart>) -> (r: bool)
    requires
        gates == gates_among(c, c.order.len()),
        gates <= REACH_MAX / 2,
        max_level == deepest(c, c.order.len()),
        max_level <= DEPTH_MAX / LEVEL_H,
    ensures
        r == (reach_z(c) <= REACH_MAX),
{
    let level: i32 = max_level as i32;
    let stages: i32 = (level + 2) * LEVEL_H / MAX_DROP + 2;
    let depth: i32 = larger(gates as i32, 8) * 2 + 24 + RISER_Z0 + stages * RISER_PITCH;
    depth <= REACH_MAX
}

fn larger(a: i32, b: i32) -> (c: i32)
    ensures
        c == greater(a as int, b as int),
{
    if a < b {
        b
    } else {
        a
    }
}

fn smaller(a: i32, b: i32) -> (c: i32)
    ensures
        c == lesser(a as int, b as int),
{
    if a < b {
        a
    } else {
        b
    }
}

fn measure(
    g: &Grid,
    widest: i32,
    inputs: u32,
    gates: usize,
    max_level: u32,
    Ghost(c): Ghost<Chart>,
    Ghost(f): Ghost<Floor>,
) -> (b: (Pos, Pos))
    requires
        g@ == f.cells,
        widest == f.widest,
        0 <= widest <= 0x0600_0000,
        spans(f.cells, 0x0900_0000),
        inputs == inputs_among(c, c.order.len()),
        inputs <= INPUTS_MAX,
        gates == gates_among(c, c.order.len()),
        reach_z(c) <= REACH_MAX,
        max_level == deepest(c, c.order.len()),
        max_level <= 0x00aa_aaaa,
    ensures
        b == volume(c, f),
        within(b.0, 0x0aff_ffff),
        within(b.1, 0x0aff_ffff),
{
    let (lo, hi): (Pos, Pos) = match g.bounds() {
        Some(b) => {
            proof {
                lemma_box(g@, b.0, b.1);
                let p = choose|p: Pos| #[trigger] g@.contains_key(p) && p.0 == b.0.0;
                assert(within(p, 0x0900_0000));
                let p = choose|p: Pos| #[trigger] g@.contains_key(p) && p.1 == b.0.1;
                assert(within(p, 0x0900_0000));
                let p = choose|p: Pos| #[trigger] g@.contains_key(p) && p.2 == b.0.2;
                assert(within(p, 0x0900_0000));
                let p = choose|p: Pos| #[trigger] g@.contains_key(p) && p.0 == b.1.0;
                assert(within(p, 0x0900_0000));
                let p = choose|p: Pos| #[trigger] g@.contains_key(p) && p.1 == b.1.1;
                assert(within(p, 0x0900_0000));
                let p = choose|p: Pos| #[trigger] g@.contains_key(p) && p.2 == b.1.2;
                assert(within(p, 0x0900_0000));
            }
            b
        },
        None => ((0, 0, 0), (0, 0, 0)),
    };
    let span: i32 = larger(widest + 8 + 3 * larger(inputs as i32, 1), 32);
    let level: i32 = max_level as i32;
    let stages: i32 = (level + 2) * LEVEL_H / MAX_DROP + 2;
    let depth: i32 = larger(gates as i32, 8) * 2 + 24 + RISER_Z0 + stages * RISER_PITCH;
    (
        (
            smaller(-8, lo.0 - 8),
            smaller(-(level + 1) * LEVEL_H - 8, lo.1 - 8),
            smaller(GATE_Z - depth, lo.2 - 8),
        ),
        (
            larger(span, hi.0 + 8),
            larger(LEVEL_H + 4, hi.1 + 8),
            larger(GATE_Z + depth, hi.2 + 8),
        ),
    )
}

// --- the layout, step by step ------------------------------------------------------------

/// What is laid out: the chart of a netlist, its output ports, and what its flip-flops
/// sample.
pub struct Draft {
    pub chart: Chart,
    pub outs: Seq<(Seq<char>, Seq<Sig>)>,
    pub ds: Seq<Sig>,
}

/// How many inputs of gates there may be: each gets three columns beside the rows.
pub const INPUTS_MAX: u32 = 0x7fff_ffff / 96;

/// How many output bits there may be: lamps sit three apart.
pub const BITS_MAX: usize = 0x7fff_ffff / 96;

/// How far the volume may reach along Z, of what an `i32` holds.
pub const REACH_MAX: i32 = 0x07ff_ffff;

/// More than there are numbers, columns, layers or rows for.
pub open spec fn oversized(d: Draft) -> bool {
    ||| d.chart.gates.len() > SIGNALS_MAX
    ||| !inputs_few(d.chart)
    ||| 3 * leaves(d.chart, d.chart.gates.len()).len() > WIDTH_MAX
    ||| LEVEL_H * deepest(d.chart, d.chart.order.len()) > DEPTH_MAX
    ||| port_bits(d.outs, d.outs.len()).len() > BITS_MAX
    ||| inputs_among(d.chart, d.chart.order.len()) > INPUTS_MAX
    ||| reach_z(d.chart) > REACH_MAX
}

/// The floor: the levers, the register bank, and the rows of gates.
#[verifier::opaque]
pub open spec fn floor_of(t: Tuning, d: Draft) -> Banked {
    let c = d.chart;
    let row = leaves(c, c.gates.len());
    let levers = levers_placed(c, row, row.len());
    if levers.stop is Some {
        Banked { floor: levers, flops: Seq::empty() }
    } else {
        let b = banked(t, c.gates, levers, d.ds.len());
        if b.floor.stop is Some {
            b
        } else {
            Banked { floor: rows_placed(c, b.floor, deepest(c, c.order.len())), ..b }
        }
    }
}

/// The bits of all output ports.
pub open spec fn all_bits(d: Draft) -> Seq<Sig> {
    port_bits(d.outs, d.outs.len())
}

/// The grid with the lamps, and the board that routing starts from.
pub open spec fn with_lamps(d: Draft, f: Floor) -> Works {
    let b = built(f.cells, lamp_steps(f.base, all_bits(d), all_bits(d).len()));
    Works { board: board_from(b.0), cells: b.0, stop: b.1 }
}

/// The drivers have their spines.
#[verifier::opaque]
pub open spec fn with_spines(d: Draft, f: Floor) -> Spined {
    let w = with_lamps(d, f);
    if w.stop is Some {
        Spined { works: w, spine: Map::empty() }
    } else {
        spines_laid(d.chart, w, f.at, d.chart.gates.len())
    }
}

/// The lamps are shielded, and the inputs of gates have their lanes.
#[verifier::opaque]
pub open spec fn with_lanes(d: Draft, f: Floor) -> Works {
    let w = with_spines(d, f).works;
    if w.stop is Some {
        w
    } else {
        stubs_laid(
            d.chart,
            Works { board: shells_kept(w.board, f.base, all_bits(d), all_bits(d).len()), ..w },
            f.base,
            d.chart.order.len(),
        )
    }
}

/// What the routes share.
pub open spec fn outer_of(t: Tuning, d: Draft, f: Floor) -> Outer {
    Outer {
        tuning: t,
        max_expansions: 250_000,
        bounds: volume(d.chart, f),
        spine: with_spines(d, f).spine,
    }
}

/// The inputs of gates, all of which wait to be routed.
pub open spec fn nets_of(t: Tuning, d: Draft, f: Floor) -> Nets {
    let spine = with_spines(d, f).spine;
    Nets {
        tuning: t,
        max_expansions: 250_000,
        bounds: volume(d.chart, f),
        work: work_listed(d.chart, spine, f.base, d.chart.order.len()).work,
        spine,
    }
}

/// The inputs of gates are routed.
#[verifier::opaque]
pub open spec fn with_inputs(t: Tuning, d: Draft, f: Floor) -> Queue {
    let w = with_lanes(d, f);
    let listed = work_listed(d.chart, with_spines(d, f).spine, f.base, d.chart.order.len());
    if w.stop is Some {
        all_waiting(w, 0)
    } else if listed.stop is Some {
        all_waiting(Works { stop: listed.stop, ..w }, 0)
    } else {
        let n = nets_of(t, d, f);
        settled(n, all_waiting(w, n.work.len()))
    }
}

/// The lamps are connected, then the register bank.
#[verifier::opaque]
pub open spec fn with_ports(t: Tuning, d: Draft, b: Banked) -> Works {
    let q = with_inputs(t, d, b.floor);
    if q.works.stop is Some {
        q.works
    } else {
        let o = outer_of(t, d, b.floor);
        let w = ports_routed(o, q.works, b.floor.base, d.outs, d.outs.len());
        if w.stop is Some {
            w
        } else {
            bank_fed(o, w, d.chart.gates.len() as u32, b.flops, d.ds, q.band)
        }
    }
}

/// The bank is connected without any other wire changing hands.
pub open spec fn bank_routed(t: Tuning, d: Draft) -> bool {
    let b = floor_of(t, d);
    let q = with_inputs(t, d, b.floor);
    let o = outer_of(t, d, b.floor);
    bank_kept(
        o,
        ports_routed(o, q.works, b.floor.base, d.outs, d.outs.len()),
        d.chart.gates.len() as u32,
        b.flops,
        d.ds,
        q.band,
        b.flops.len() as int,
    )
}

/// The lamps are connected without any wire changing hands that is no end of their routes.
pub open spec fn ports_kept(t: Tuning, d: Draft) -> bool {
    let f = floor_of(t, d).floor;
    let q = with_inputs(t, d, f);
    let o = outer_of(t, d, f);
    forall|p: Pos, net: NetId| #[trigger]
        owned(q.works.board, p, net) && port_passed(o, f.base, all_bits(d), 0, p, net) ==> owned(
            ports_routed(o, q.works, f.base, d.outs, d.outs.len()).board,
            p,
            net,
        )
}

/// The layout of a draft, and what stopped it.
pub open spec fn laid_out(t: Tuning, d: Draft) -> Works {
    let b = floor_of(t, d);
    if oversized(d) {
        Works { board: board_from(Map::empty()), cells: Map::empty(), stop: Some(too_large()) }
    } else if b.floor.stop is Some {
        Works { board: board_from(b.floor.cells), cells: b.floor.cells, stop: b.floor.stop }
    } else {
        with_ports(t, d, b)
    }
}

/// The draft of a netlist whose signals are taken in some order.
pub open spec fn draft_of(net: &Netlist, order: Seq<Sig>) -> Draft {
    Draft {
        chart: Chart { gates: net.gates(), order },
        outs: outputs_of(net.outputs@),
        ds: net.dffs@.map_values(|f: Dff| f.d),
    }
}

/// The draft of a netlist.
pub open spec fn blueprint(net: &Netlist) -> Draft {
    draft_of(net, walked(net, net.root_sigs()))
}

// --- the input levers ----------------------------------------------------------------------

/// An input lever: its port, its bit, and where it is.
pub struct Lever {
    pub port: u32,
    pub bit: u32,
    pub at: Pos,
}

/// The levers with one more in its place: by port, then by bit.
pub open spec fn with_lever(levers: Seq<Lever>, l: Lever) -> Seq<Lever>
    decreases levers.len(),
{
    if levers.len() > 0 && (l.port < levers.last().port || (l.port == levers.last().port && l.bit
        < levers.last().bit)) {
        with_lever(levers.drop_last(), l).push(levers.last())
    } else {
        levers.push(l)
    }
}

/// The levers of the inputs among the first `n` signals: each beside the dust that its
/// signal comes out at.
pub open spec fn levers_among(gates: Seq<Gate>, at: Map<Sig, Pos>, n: nat) -> Seq<Lever>
    decreases n,
{
    if n == 0 {
        Seq::empty()
    } else {
        let before = levers_among(gates, at, (n - 1) as nat);
        let s = (n - 1) as u32;
        match gates[n - 1] {
            Gate::Input { port, bit } => if at.contains_key(s) {
                with_lever(before, Lever { port, bit, at: moved(at[s], 0, 0, -1) })
            } else {
                before
            },
            _ => before,
        }
    }
}

/// A port and its levers.
pub struct PortLevers {
    pub port: u32,
    pub levers: Seq<Pos>,
}

/// The first `n` levers, port by port.
pub open spec fn by_port(levers: Seq<Lever>, n: nat) -> Seq<PortLevers>
    decreases n,
{
    if n == 0 {
        Seq::empty()
    } else {
        let before = by_port(levers, (n - 1) as nat);
        let l = levers[n - 1];
        if n >= 2 && levers[n - 2].port == l.port {
            before.drop_last().push(
                PortLevers { port: l.port, levers: before.last().levers.push(l.at) },
            )
        } else {
            before.push(PortLevers { port: l.port, levers: seq![l.at] })
        }
    }
}

pub open spec fn port_text(port: u32) -> Seq<char> {
    "port"@ + decimal(port as nat)
}

/// The levers are listed under the names of their ports.
pub open spec fn levers_listed(v: Seq<(String, Vec<Pos>)>, ports: Seq<PortLevers>) -> bool {
    &&& v.len() == ports.len()
    &&& forall|i: int|
        0 <= i < v.len() ==> (#[trigger] v[i]).0@ == port_text(ports[i].port) && v[i].1@ == ports[i].levers
}

/// The lever of the state reset: beside the dust that the first reset signal comes out
/// at.
pub open spec fn reset_lever(gates: Seq<Gate>, at: Map<Sig, Pos>, n: nat) -> Option<Pos>
    decreases n,
{
    if n == 0 {
        None
    } else {
        let before = reset_lever(gates, at, (n - 1) as nat);
        let s = (n - 1) as u32;
        if before is None && gates[n - 1] is Reset && at.contains_key(s) {
            Some(moved(at[s], 0, 0, -1))
        } else {
            before
        }
    }
}

// --- the result ------------------------------------------------------------------------------

/// A placed and routed netlist.
pub struct Layout {
    pub grid: Grid,
    /// Input levers, LSB first, per port.
    pub input_levers: Vec<(String, Vec<Pos>)>,
    /// Output lamps, LSB first, per port.
    pub output_lamps: Vec<(String, Vec<Pos>)>,
    pub levels: usize,
    pub gates: usize,
    /// Clock, inverted clock and reset levers. Empty for a combinational build.
    ///
    /// The clock is supplied as two externally driven phases rather than one
    /// clock and an on-board inverter. Two levers are free and let the harness hold
    /// the non-overlap explicitly.
    pub clk_lever: Option<Pos>,
    pub clk_n_lever: Option<Pos>,
    pub rst_lever: Option<Pos>,
    /// The lever of the netlist's own reset, which has to be clocked in.
    pub net_reset_lever: Option<Pos>,
    pub flops: usize,
    /// Where each flip-flop's ports are.
    pub flop_ports: Vec<DffPorts>,
    /// Where each gate comes out, and its feeds.
    pub gate_cells: HashMap<Sig, (Pos, Vec<Pos>)>,
    /// Which net each wire belongs to.
    pub wire_owner: PosMap<u32>,
}

/// The lever of control line `i`, where there are flip-flops.
pub open spec fn ctrl_lever(d: Draft, i: int) -> Option<Pos> {
    if d.ds.len() == 0 {
        None
    } else {
        Some(moved(ctrl_tap(i), 0, 0, 1))
    }
}

/// The lamps are listed under the names of their ports.
pub open spec fn lamps_listed(
    v: Seq<(String, Vec<Pos>)>,
    base: Map<Sig, Pos>,
    outs: Seq<(Seq<char>, Seq<Sig>)>,
) -> bool {
    &&& v.len() == outs.len()
    &&& forall|p: int|
        0 <= p < v.len() ==> (#[trigger] v[p]).0@ == outs[p].0 && v[p].1@ == Seq::new(
            outs[p].1.len(),
            |k: int| lamp_at(base, outs[p].1[k], port_bits(outs, p as nat).len() + k),
        )
}

/// The cells of the gates.
pub open spec fn cells_listed(m: Map<Sig, (Pos, Vec<Pos>)>, c: Chart, f: Floor) -> bool {
    &&& m.dom() == f.base.dom()
    &&& forall|s: Sig| #[trigger]
        m.contains_key(s) ==> m[s].0 == nor_out(f.base[s]) && m[s].1@ == nor_feeds(
            f.base[s],
            fan_in(gate_operands(c.gates[s as int]).len() as int),
        )
}

impl Layout {
    /// The layout is what a draft comes to.
    pub open spec fn shows(&self, t: Tuning, d: Draft) -> bool {
        let c = d.chart;
        let b = floor_of(t, d);
        let w = laid_out(t, d);
        let levers = levers_among(c.gates, b.floor.at, c.gates.len());
        &&& w.stop is None
        &&& self.grid@ == w.cells
        &&& self.wire_owner@ == w.board.owner
        &&& levers_listed(self.input_levers@, by_port(levers, levers.len()))
        &&& lamps_listed(self.output_lamps@, b.floor.base, d.outs)
        &&& self.levels == deepest(c, c.order.len()) + 1
        &&& self.gates == gates_among(c, c.order.len())
        &&& self.clk_lever == ctrl_lever(d, 0)
        &&& self.clk_n_lever == ctrl_lever(d, 1)
        &&& self.rst_lever == ctrl_lever(d, 2)
        &&& self.net_reset_lever == reset_lever(c.gates, b.floor.at, c.gates.len())
        &&& self.flops == d.ds.len()
        &&& bank_ports(self.flop_ports@, b.flops)
        &&& cells_listed(self.gate_cells@, c, b.floor)
    }
}

/// Each control lever drives what it is reported for: the dust north of it is wire of the
/// net that owns the feeds of every flip-flop that the lever is named after. This is said of
/// banks in which no cell is to take two things.
pub open spec fn controls_wired(l: Layout) -> bool {
    l.flops > 0 && ports_differ(l.flop_ports@) ==> levers_drive(
        l.wire_owner@,
        l.clk_lever,
        l.clk_n_lever,
        l.rst_lever,
        l.flop_ports@,
    )
}

/// Each flip-flop samples the signal that it is there for: its data feeds are wire of that
/// signal. This is said of banks in which no cell is to take two things.
pub open spec fn data_wired(l: Layout, net: &Netlist) -> bool {
    ports_differ(l.flop_ports@) && data_apart(l.flop_ports@) ==> forall|i: int|
        0 <= i < l.flop_ports@.len() ==> all_owned(
            l.wire_owner@,
            (#[trigger] l.flop_ports@[i]).d_feeds@,
            net.dffs@[i].d,
        )
}

// --- laying out ------------------------------------------------------------------------------

/// The floor of a draft, once it is laid.
struct Ground {
    plan: Plan,
    flops: Vec<DffPorts>,
    max_level: u32,
}

fn lay_floor(net: &Netlist, order: &Vec<Sig>, t: Tuning, Ghost(d): Ghost<Draft>) -> (r: Result<Ground, String>)
    requires
        net.wf(),
        d == draft_of(net, order@),
        chart_ok(d.chart),
        tuning_ok(t),
    ensures
        ({
            let b = floor_of(t, d);
            match r {
                Ok(p) => {
                    &&& p.plan.shows(b.floor, d.chart.gates.len())
                    &&& bank_ports(p.flops@, b.flops)
                    &&& flops_within(b.flops, 0x0880_0000)
                    &&& p.flops@.len() == d.ds.len()
                    &&& p.max_level == deepest(d.chart, order@.len())
                    &&& p.max_level <= 0x00aa_aaaa
                    &&& in_range(bank_of(t, d).floor)
                    &&& flops_within(bank_of(t, d).flops, 0x0880_0000)
                },
                Err(m) => b.floor.stop == Some(m@),
            }
        }),
{
    proof {
        reveal(floor_of);
    }
    let ghost c = d.chart;
    let used = used_signals(order, net.sigs.len());
    let ghost row = leaves(c, c.gates.len());
    let ghost levers = levers_placed(c, row, row.len());
    let plan = place_levers(net, &used, Ghost(c))?;
    let ghost b = banked(t, c.gates, levers, d.ds.len());
    let (plan, flops) = place_bank(net, plan, t, Ghost(levers))?;
    let level = levelize(net);
    let max_level: u32 = max_level_of(net, order, &level, Ghost(c));
    let plan = place_rows(net, order, &level, plan, max_level, Ghost(c), Ghost(b.floor))?;
    Ok(Ground { plan, flops, max_level })
}

/// The bits of all output ports, unless they are too many.
fn gather_bits(outs: &Vec<(String, Vec<Sig>)>, n: usize) -> (r: Option<Vec<Sig>>)
    requires
        forall|p: int| 0 <= p < outs@.len() ==> row_wf((#[trigger] outs@[p]).1@, n as nat),
    ensures
        ({
            let all = port_bits(outputs_of(outs@), outs@.len());
            match r {
                Some(v) => v@ == all && all.len() <= BITS_MAX && row_wf(v@, n as nat),
                None => all.len() > BITS_MAX,
            }
        }),
{
    let ghost all = outputs_of(outs@);
    let mut v: Vec<Sig> = Vec::new();
    for p in 0..outs.len()
        invariant
            all == outputs_of(outs@),
            forall|p: int| 0 <= p < outs@.len() ==> row_wf((#[trigger] outs@[p]).1@, n as nat),
            v@ == port_bits(all, p as nat),
            v@.len() <= BITS_MAX,
            row_wf(v@, n as nat),
    {
        let bits = &outs[p].1;
        assert(row_wf(outs@[p as int].1@, n as nat));
        assert(all[p as int].1 == bits@);
        if bits.len() > BITS_MAX || v.len() + bits.len() > BITS_MAX {
            proof {
                lemma_bits_grow(all, (p + 1) as nat, outs@.len());
            }
            return None;
        }
        let ghost had = v@;
        for k in 0..bits.len()
            invariant
                v@ == had + bits@.take(k as int),
        {
            v.push(bits[k]);
            assert(v@ =~= had + bits@.take(k + 1));
        }
        assert(bits@.take(bits@.len() as int) =~= bits@);
        assert forall|k: int| 0 <= k < v@.len() implies (#[trigger] v@[k]) < n by {
            if k < had.len() {
                assert(had[k] < n);
            } else {
                assert(bits@[k - had.len()] < n);
            }
        }
    }
    Some(v)
}

/// Stamp the lamps, and set the routing up: spines, shields and lanes.
fn prepare(
    net: &Netlist,
    order: &Vec<Sig>,
    plan: &mut Plan,
    bits: &Vec<Sig>,
    t: Tuning,
    Ghost(d): Ghost<Draft>,
    Ghost(f): Ghost<Floor>,
) -> (r: Result<(Router, Vec<Vec<Pos>>), String>)
    requires
        net.wf(),
        d == draft_of(net, order@),
        chart_ok(d.chart),
        order@.len() <= 0xffff_fffd,
        old(plan).shows(f, d.chart.gates.len()),
        bits@ == all_bits(d),
        bits@.len() <= 0x0155_5555,
        row_wf(bits@, d.chart.gates.len()),
    ensures
        match r {
            Ok((router, spines)) => {
                &&& running(with_lanes(d, f), router, final(plan).grid)
                &&& known_spines(spines@) == with_spines(d, f).spine
                &&& spines@.len() == d.chart.gates.len()
                &&& crate::wiring::spines_within(spines@, 0x0980_0000)
                &&& router.tuning == t
                &&& router.max_expansions == 250_000
            },
            Err(m) => with_lanes(d, f).stop == Some(m@),
        },
        final(plan).at == old(plan).at,
        final(plan).base == old(plan).base,
{
    proof {
        reveal(with_spines);
        reveal(with_lanes);
    }
    let ghost c = d.chart;
    place_lamps(&mut plan.grid, &plan.base, bits)?;
    let mut router = Router::from_grid(&plan.grid);
    router.tuning = t;
    let ghost w = with_lamps(d, f);
    assert(running(w, router, plan.grid));
    let spines = lay_spines(net, order, &mut plan.grid, &mut router, &plan.at, Ghost(c), Ghost(w));
    let ghost s = with_spines(d, f).works;
    keep_shells(&mut router, &plan.base, bits);
    let ghost shielded = Works { board: shells_kept(s.board, f.base, bits@, bits@.len()), ..s };
    lay_stubs(net, order, &mut plan.grid, &mut router, &plan.base, Ghost(c), Ghost(shielded))?;
    Ok((router, spines))
}

/// Does every gate fit in a row?
fn rows_hold(net: &Netlist, Ghost(c): Ghost<Chart>) -> (r: bool)
    requires
        c.gates == net.gates(),
        net.wf(),
    ensures
        r == inputs_few(c),
{
    for i in 0..net.sigs.len()
        invariant
            c.gates == net.gates(),
            net.wf(),
            forall|g: Sig| g < i ==> 2 * gate_operands(#[trigger] c.gates[g as int]).len() <= WIDTH_MAX,
    {
        let k: usize = net.operands(i as u32).len();
        if k > (WIDTH_MAX / 2) as usize {
            assert(2 * gate_operands(c.gates[(i as u32) as int]).len() > WIDTH_MAX);
            return false;
        }
    }
    true
}

/// Route everything.
fn connect(
    net: &Netlist,
    order: &Vec<Sig>,
    ground: &mut Ground,
    bits: &Vec<Sig>,
    bounds: (Pos, Pos),
    t: Tuning,
    Ghost(d): Ghost<Draft>,
) -> (r: Result<Router, String>)
    requires
        net.wf(),
        d == draft_of(net, order@),
        chart_ok(d.chart),
        order@.len() <= 0xffff_fffd,
        old(ground).plan.shows(floor_of(t, d).floor, d.chart.gates.len()),
        bank_ports(old(ground).flops@, floor_of(t, d).flops),
        flops_within(floor_of(t, d).flops, 0x0880_0000),
        old(ground).flops@.len() == d.ds.len(),
        bits@ == all_bits(d),
        bits@.len() <= 0x0155_5555,
        row_wf(bits@, d.chart.gates.len()),
        bounds == volume(d.chart, floor_of(t, d).floor),
        within(bounds.0, 0x0aff_ffff),
        within(bounds.1, 0x0aff_ffff),
        tuning_ok(t),
        deepest(d.chart, order@.len()) <= 0x00aa_aaaa,
        in_range(bank_of(t, d).floor),
        flops_within(bank_of(t, d).flops, 0x0880_0000),
    ensures
        match r {
            Ok(router) => inputs_apart(t, d) && routed_apart(
                with_ports(t, d, floor_of(t, d)).board,
                lamp_pads(floor_of(t, d).floor.base, all_bits(d)),
            ) && running(with_ports(t, d, floor_of(t, d)), router, final(ground).plan.grid) && bank_routed(t, d)
                && with_lamps(d, floor_of(t, d).floor).stop is None && outputs_owned(
                with_ports(t, d, floor_of(t, d)).board.owner,
                floor_of(t, d).floor.at,
                d.chart.gates.len(),
            ),
            Err(m) => with_ports(t, d, floor_of(t, d)).stop == Some(m@),
        },
        final(ground).plan.at == old(ground).plan.at,
        final(ground).plan.base == old(ground).plan.base,
        final(ground).flops == old(ground).flops,
        final(ground).max_level == old(ground).max_level,
{
    let ghost b = floor_of(t, d);
    let ghost f = b.floor;
    let ghost c = d.chart;
    proof {
        reveal(with_inputs);
        reveal(with_ports);
    }
    let (mut router, spines) = prepare(net, order, &mut ground.plan, bits, t, Ghost(d), Ghost(f))?;
    let ghost w = with_lanes(d, f);
    assert(with_lamps(d, f).stop is None) by {
        reveal(with_spines);
        reveal(with_lanes);
    }
    let work = list_work(net, order, &spines, &ground.plan.base, Ghost(c))?;
    let ghost n = nets_of(t, d, f);
    let ghost o = outer_of(t, d, f);
    assert(nets_ok(n));
    proof {
        assert forall|i: int| 0 <= i < n.work.len() implies sources_ok(n.spine[(#[trigger] n.work[i]).src])
            && within(n.spine[n.work[i].src][0], 0x0980_0000) by {
            assert(crate::negotiate::conn_ok(n.spine, n.work[i]));
            let s = n.work[i].src;
            lemma_spine_ok(spines@, s);
            assert(within(spines@[s as int]@[0], 0x0980_0000));
        }
        lemma_ends_owned(t, d);
        lemma_inputs_apart(t, d, f);
    }
    assert(outer_shown(o, router, spines@, bounds));
    let band: i32 = route_all(
        &mut ground.plan.grid,
        &mut router,
        &work,
        &spines,
        bounds,
        Ghost(n),
        Ghost(w),
    )?;
    let ghost q = with_inputs(t, d, f);
    assert(d.outs.len() == net.outputs@.len());
    proof {
        lemma_apart_as_routed(q.works.board, lamp_pads(f.base, all_bits(d)));
    }
    route_ports(
        &mut ground.plan.grid,
        &mut router,
        &spines,
        &ground.plan.base,
        &net.outputs,
        bounds,
        Ghost(o),
        Ghost(q.works),
    )?;
    let ghost w = ports_routed(o, q.works, f.base, d.outs, d.outs.len());
    feed_bank(
        &mut ground.plan.grid,
        &mut router,
        &spines,
        &ground.flops,
        &net.dffs,
        bounds,
        band,
        Ghost(o),
        Ghost(b.flops),
        Ghost(w),
    )?;
    proof {
        lemma_outputs_owned(t, d);
    }
    Ok(router)
}

// --- reporting -------------------------------------------------------------------------------

proof fn lemma_with_lever(levers: Seq<Lever>, l: Lever, k: int)
    requires
        0 <= k <= levers.len(),
        forall|i: int|
            k <= i < levers.len() ==> l.port < (#[trigger] levers[i]).port || (l.port == levers[i].port && l.bit
                < levers[i].bit),
        k > 0 ==> !(l.port < levers[k - 1].port || (l.port == levers[k - 1].port && l.bit < levers[k - 1].bit)),
    ensures
        with_lever(levers, l) == levers.insert(k, l),
    decreases levers.len(),
{
    if k == levers.len() {
        assert(levers.insert(k, l) =~= levers.push(l));
    } else {
        let rest = levers.drop_last();
        assert(levers[levers.len() - 1] == levers.last());
        assert forall|i: int| k <= i < rest.len() implies l.port < (#[trigger] rest[i]).port || (l.port
            == rest[i].port && l.bit < rest[i].bit) by {
            assert(rest[i] == levers[i]);
        }
        lemma_with_lever(rest, l, k);
        assert(levers.insert(k, l) =~= rest.insert(k, l).push(levers.last()));
    }
}

fn add_lever(levers: &mut Vec<Lever>, l: Lever)
    ensures
        final(levers)@ == with_lever(old(levers)@, l),
{
    let mut k: usize = levers.len();
    while k > 0
        invariant_except_break
            0 <= k <= levers@.len(),
            levers@ == old(levers)@,
            forall|i: int|
                k <= i < levers@.len() ==> l.port < (#[trigger] levers@[i]).port || (l.port == levers@[i].port
                    && l.bit < levers@[i].bit),
        ensures
            0 <= k <= levers@.len(),
            levers@ == old(levers)@,
            forall|i: int|
                k <= i < levers@.len() ==> l.port < (#[trigger] levers@[i]).port || (l.port == levers@[i].port
                    && l.bit < levers@[i].bit),
            k > 0 ==> !(l.port < levers@[k - 1].port || (l.port == levers@[k - 1].port && l.bit
                < levers@[k - 1].bit)),
        decreases k,
    {
        let o = &levers[k - 1];
        if !(l.port < o.port || (l.port == o.port && l.bit < o.bit)) {
            break;
        }
        k = k - 1;
    }
    proof {
        lemma_with_lever(levers@, l, k as int);
    }
    levers.insert(k, l);
}

fn find_levers(net: &Netlist, at: &Vec<Option<Pos>>) -> (levers: Vec<Lever>)
    requires
        at@.len() == net.gates().len(),
        at@.len() <= 0xffff_fffd,
        all_within(known(at@), 0x0900_0000),
    ensures
        levers@ == levers_among(net.gates(), known(at@), net.gates().len()),
{
    let mut levers: Vec<Lever> = Vec::new();
    for i in 0..net.sigs.len()
        invariant
            at@.len() == net.gates().len(),
            at@.len() <= 0xffff_fffd,
            all_within(known(at@), 0x0900_0000),
            levers@ == levers_among(net.gates(), known(at@), i as nat),
    {
        let ghost s = i as u32;
        assert(net.gates()[i as int] == net.sigs@[i as int]@);
        if let Src::Input { port, bit } = &net.sigs[i] {
            match at[i] {
                Some(p) => {
                    assert(known(at@).contains_key(s) && known(at@)[s] == p);
                    // The lever itself, not the dust tap the router starts from.
                    add_lever(&mut levers, Lever { port: *port, bit: *bit, at: (p.0, p.1, p.2 - 1) });
                },
                None => {
                    assert(!known(at@).contains_key(s));
                },
            }
        }
    }
    levers
}

fn port_name(port: u32) -> (s: String)
    ensures
        s@ == port_text(port),
{
    let mut s = String::from_str("port");
    push_decimal(&mut s, port as u64);
    s
}

/// Group the levers by port for the caller.
fn list_levers(levers: &Vec<Lever>) -> (v: Vec<(String, Vec<Pos>)>)
    ensures
        levers_listed(v@, by_port(levers@, levers@.len())),
{
    let mut v: Vec<(String, Vec<Pos>)> = Vec::new();
    let mut i: usize = 0;
    while i < levers.len()
        invariant
            i <= levers@.len(),
            levers_listed(v@, by_port(levers@, i as nat)),
            i > 0 ==> v@.len() > 0 && by_port(levers@, i as nat).last().port == levers@[i - 1].port,
        decreases levers@.len() - i,
    {
        let ghost before = by_port(levers@, i as nat);
        let ghost had = v@;
        let port: u32 = levers[i].port;
        let p: Pos = levers[i].at;
        if i > 0 && levers[i - 1].port == port {
            assert(before.len() == v@.len());
            let last = v.pop();
            match last {
                Some((name, own)) => {
                    let mut own = own;
                    own.push(p);
                    v.push((name, own));
                },
                None => {},
            }
        } else {
            let mut own: Vec<Pos> = Vec::new();
            own.push(p);
            assert(own@ =~= seq![p]);
            v.push((port_name(port), own));
        }
        proof {
            let after = by_port(levers@, (i + 1) as nat);
            assert(after.len() == v@.len());
            assert forall|k: int| 0 <= k < v@.len() implies (#[trigger] v@[k]).0@ == port_text(after[k].port)
                && v@[k].1@ == after[k].levers by {
                if k < v@.len() - 1 {
                    assert(v@[k] == had[k]);
                    assert(after[k] == before[k]);
                } else if i > 0 && levers@[i - 1].port == port {
                    assert(had[k].0@ == port_text(before[k].port));
                }
            }
        }
        i = i + 1;
    }
    v
}

/// List the lamps under the names of their ports.
fn list_lamps(outs: &Vec<(String, Vec<Sig>)>, base: &Vec<Option<Pos>>) -> (v: Vec<(String, Vec<Pos>)>)
    requires
        all_within(known(base@), 0x0400_0000),
        forall|p: int| 0 <= p < outs@.len() ==> row_wf((#[trigger] outs@[p]).1@, base@.len()),
        port_bits(outputs_of(outs@), outs@.len()).len() <= 0x0155_5555,
    ensures
        lamps_listed(v@, known(base@), outputs_of(outs@)),
{
    let ghost all = outputs_of(outs@);
    let mut v: Vec<(String, Vec<Pos>)> = Vec::new();
    let mut first: usize = 0;
    for p in 0..outs.len()
        invariant
            all == outputs_of(outs@),
            all_within(known(base@), 0x0400_0000),
            forall|p: int| 0 <= p < outs@.len() ==> row_wf((#[trigger] outs@[p]).1@, base@.len()),
            port_bits(all, outs@.len()).len() <= 0x0155_5555,
            first == port_bits(all, p as nat).len(),
            v@.len() == p,
            forall|k: int|
                0 <= k < p ==> (#[trigger] v@[k]).0@ == all[k].0 && v@[k].1@ == Seq::new(
                    all[k].1.len(),
                    |j: int| lamp_at(known(base@), all[k].1[j], port_bits(all, k as nat).len() + j),
                ),
    {
        let bits = &outs[p].1;
        assert(all[p as int] == (outs@[p as int].0@, outs@[p as int].1@));
        assert(row_wf(outs@[p as int].1@, base@.len()));
        proof {
            lemma_bits_grow(all, (p + 1) as nat, outs@.len());
        }
        let mut lamps: Vec<Pos> = Vec::new();
        for k in 0..bits.len()
            invariant
                all_within(known(base@), 0x0400_0000),
                row_wf(bits@, base@.len()),
                first + bits@.len() <= 0x0155_5555,
                lamps@ == Seq::new(k as nat, |j: int| lamp_at(known(base@), bits@[j], first + j)),
        {
            assert(bits@[k as int] < base@.len());
            let pad = pad_of(base, bits[k], first + k);
            lamps.push((pad.0, pad.1 - 1, pad.2));
            assert(lamps@ =~= Seq::new(
                (k + 1) as nat,
                |j: int| lamp_at(known(base@), bits@[j], first + j),
            ));
        }
        assert(lamps@ =~= Seq::new(
            all[p as int].1.len(),
            |j: int| lamp_at(known(base@), all[p as int].1[j], port_bits(all, p as nat).len() + j),
        ));
        let name = outs[p].0.clone();
        v.push((name, lamps));
        first = first + bits.len();
    }
    v
}

fn find_reset(net: &Netlist, at: &Vec<Option<Pos>>) -> (r: Option<Pos>)
    requires
        at@.len() == net.gates().len(),
        at@.len() <= 0xffff_fffd,
        all_within(known(at@), 0x0900_0000),
    ensures
        r == reset_lever(net.gates(), known(at@), net.gates().len()),
{
    let mut r: Option<Pos> = None;
    for i in 0..net.sigs.len()
        invariant
            at@.len() == net.gates().len(),
            at@.len() <= 0xffff_fffd,
            all_within(known(at@), 0x0900_0000),
            r == reset_lever(net.gates(), known(at@), i as nat),
    {
        let ghost s = i as u32;
        assert(net.gates()[i as int] == net.sigs@[i as int]@);
        if let Src::Reset = &net.sigs[i] {
            if let Some(p) = at[i] {
                assert(known(at@).contains_key(s) && known(at@)[s] == p);
                if r.is_none() {
                    r = Some((p.0, p.1, p.2 - 1));
                }
            } else {
                assert(!known(at@).contains_key(s));
            }
        }
    }
    r
}

fn feeds_of(base: Pos, k: usize) -> (v: Vec<Pos>)
    requires
        within(base, 0x0400_0000),
        k <= 0x01ff_ffff,
    ensures
        v@ == nor_feeds(base, k as nat),
{
    let mut v: Vec<Pos> = Vec::new();
    for i in 0..k
        invariant
            within(base, 0x0400_0000),
            k <= 0x01ff_ffff,
            v@ == nor_feeds(base, i as nat),
    {
        v.push((base.0 + 2 * i as i32, base.1 + 1, base.2 - 2));
        assert(v@ =~= nor_feeds(base, (i + 1) as nat));
    }
    v
}

/// List where the gates are.
fn list_cells(net: &Netlist, base: &Vec<Option<Pos>>, Ghost(c): Ghost<Chart>, Ghost(f): Ghost<Floor>) -> (m: HashMap<
    Sig,
    (Pos, Vec<Pos>),
>)
    requires
        net.wf(),
        c.gates == net.gates(),
        inputs_few(c),
        base@.len() == c.gates.len(),
        known(base@) == f.base,
        all_within(f.base, 0x0400_0000),
    ensures
        cells_listed(m@, c, f),
{
    let mut m: HashMap<Sig, (Pos, Vec<Pos>)> = HashMap::new();
    for i in 0..base.len()
        invariant
            net.wf(),
            c.gates == net.gates(),
            inputs_few(c),
            base@.len() == c.gates.len(),
            known(base@) == f.base,
            all_within(f.base, 0x0400_0000),
            forall|s: Sig| #[trigger] m@.contains_key(s) <==> s < i && f.base.contains_key(s),
            forall|s: Sig| #[trigger]
                m@.contains_key(s) ==> m@[s].0 == nor_out(f.base[s]) && m@[s].1@ == nor_feeds(
                    f.base[s],
                    fan_in(gate_operands(c.gates[s as int]).len() as int),
                ),
    {
        let s: Sig = i as u32;
        match base[i] {
            Some(b) => {
                assert(f.base.contains_key(s) && f.base[s] == b);
                let k: usize = net.operands(s).len();
                assert(2 * gate_operands(c.gates[s as int]).len() <= WIDTH_MAX);
                let k: usize = if k == 0 {
                    1
                } else {
                    k
                };
                let feeds = feeds_of(b, k);
                m.insert(s, ((b.0, b.1, b.2 + 2), feeds));
            },
            None => {
                assert(!f.base.contains_key(s));
            },
        }
    }
    assert(m@.dom() =~= f.base.dom());
    m
}

fn ctrl_place(i: i32, n: usize, Ghost(d): Ghost<Draft>) -> (p: Option<Pos>)
    requires
        0 <= i <= 2,
        n == d.ds.len(),
    ensures
        p == ctrl_lever(d, i as int),
{
    if n == 0 {
        None
    } else {
        let p: Pos = (-6 - 3 * i, LEVEL_H, GATE_Z - 4);
        assert(p == moved(ctrl_tap(i as int), 0, 0, 1));
        Some(p)
    }
}

/// Place and route a netlist.
///
/// The signals are taken in the order in which a depth-first walk leaves them, so
/// operands come before users. Fails with what stopped it.
pub fn build(net: &Netlist) -> (r: Result<Layout, String>)
    requires
        net.wf(),
    ensures
        match r {
            Ok(l) => {
                &&& l.shows(usual_tuning(), blueprint(net))
                &&& inputs_apart(usual_tuning(), blueprint(net))
                &&& routes_apart(usual_tuning(), blueprint(net))
                &&& controls_wired(l)
                &&& pins_wired(l, net.gates())
                &&& data_wired(l, net)
                &&& spans(l.grid@, 0x0b00_0000)
            },
            Err(m) => laid_out(usual_tuning(), blueprint(net)).stop == Some(m@),
        },
{
    build_with(net, Tuning::usual())
}

/// As [`build`], with the router tuned otherwise.
pub fn build_with(net: &Netlist, tuning: Tuning) -> (r: Result<Layout, String>)
    requires
        net.wf(),
        tuning_ok(tuning),
    ensures
        match r {
            Ok(l) => {
                &&& l.shows(tuning, blueprint(net))
                &&& inputs_apart(tuning, blueprint(net))
                &&& routes_apart(tuning, blueprint(net))
                &&& controls_wired(l)
                &&& pins_wired(l, net.gates())
                &&& data_wired(l, net)
                &&& spans(l.grid@, 0x0b00_0000)
            },
            Err(m) => laid_out(tuning, blueprint(net)).stop == Some(m@),
        },
{
    let roots = net.roots();
    proof {
        crate::netlist::lemma_roots_wf(net);
    }
    let order = net.topo_order(roots.as_slice());
    let ghost d = draft_of(net, order@);
    assert(is_topo_order(net, net.root_sigs(), order@));
    lay_out(net, &order, tuning, Ghost(d))
}

/// Builds are the same every time: two layouts of one draft have the same blocks, the
/// same wires and the same ports.
pub proof fn lemma_builds_agree(a: Layout, b: Layout, t: Tuning, d: Draft)
    requires
        a.shows(t, d),
        b.shows(t, d),
    ensures
        a.grid@ == b.grid@,
        a.wire_owner@ == b.wire_owner@,
        a.levels == b.levels,
        a.gates == b.gates,
        a.flops == b.flops,
        a.clk_lever == b.clk_lever,
        a.clk_n_lever == b.clk_n_lever,
        a.rst_lever == b.rst_lever,
        a.net_reset_lever == b.net_reset_lever,
        a.input_levers@.len() == b.input_levers@.len(),
        forall|i: int|
            0 <= i < a.input_levers@.len() ==> (#[trigger] a.input_levers@[i]).0@ == b.input_levers@[i].0@
                && a.input_levers@[i].1@ == b.input_levers@[i].1@,
        a.output_lamps@.len() == b.output_lamps@.len(),
        forall|i: int|
            0 <= i < a.output_lamps@.len() ==> (#[trigger] a.output_lamps@[i]).0@ == b.output_lamps@[i].0@
                && a.output_lamps@[i].1@ == b.output_lamps@[i].1@,
{
    assert forall|i: int| 0 <= i < a.input_levers@.len() implies (#[trigger] a.input_levers@[i]).0@
        == b.input_levers@[i].0@ && a.input_levers@[i].1@ == b.input_levers@[i].1@ by {}
    assert forall|i: int| 0 <= i < a.output_lamps@.len() implies (#[trigger] a.output_lamps@[i]).0@
        == b.output_lamps@[i].0@ && a.output_lamps@[i].1@ == b.output_lamps@[i].1@ by {}
}

/// Distinct signals below `n` are no more than `n`.
proof fn lemma_few(order: Seq<Sig>, n: nat)
    requires
        order.no_duplicates(),
        forall|i: int| 0 <= i < order.len() ==> (#[trigger] order[i]) < n,
        n <= 0xffff_fffd,
    ensures
        order.len() <= n,
    decreases n,
{
    if n == 0 {
        if order.len() > 0 {
            assert(order[0] < 0);
        }
    } else {
        let last = (n - 1) as u32;
        if order.contains(last) {
            let k = choose|k: int| 0 <= k < order.len() && order[k] == last;
            let rest = order.remove(k);
            assert forall|i: int| 0 <= i < rest.len() implies (#[trigger] rest[i]) < n - 1 by {
                let j = if i < k {
                    i
                } else {
                    i + 1
                };
                assert(rest[i] == order[j] && order[j] < n && order[j] != order[k]);
            }
            lemma_few(rest, (n - 1) as nat);
        } else {
            assert forall|i: int| 0 <= i < order.len() implies (#[trigger] order[i]) < n - 1 by {
                assert(order.contains(order[i]));
            }
            lemma_few(order, (n - 1) as nat);
        }
    }
}

fn too_big() -> (s: String)
    ensures
        s@ == too_large(),
{
    String::from_str("circuit is too large to place")
}

fn lay_out(net: &Netlist, order: &Vec<Sig>, t: Tuning, Ghost(d): Ghost<Draft>) -> (r: Result<Layout, String>)
    requires
        net.wf(),
        d == draft_of(net, order@),
        is_topo_order(net, net.root_sigs(), order@),
        tuning_ok(t),
    ensures
        match r {
            Ok(l) => l.shows(t, d) && inputs_apart(t, d) && routes_apart(t, d) && controls_wired(l) && pins_wired(
                l,
                net.gates(),
            ) && data_wired(l, net) && spans(l.grid@, 0x0b00_0000),
            Err(m) => laid_out(t, d).stop == Some(m@),
        },
{
    let ghost c = d.chart;
    if net.sigs.len() > SIGNALS_MAX || !rows_hold(net, Ghost(c)) {
        return Err(too_big());
    }
    proof {
        lemma_few(order@, net.gates().len());
    }
    assert(chart_wf(c));
    let used = used_signals(order, net.sigs.len());
    if leaf_row(net, &used, Ghost(c)).len() > (WIDTH_MAX / 3) as usize {
        return Err(too_big());
    }
    let level = levelize(net);
    let max_level: u32 = max_level_of(net, order, &level, Ghost(c));
    let gates: usize = count_gates(net, order, Ghost(c));
    if max_level > (DEPTH_MAX / LEVEL_H) as u32 || gates > (REACH_MAX / 2) as usize || !reaches(
        gates,
        max_level,
        Ghost(c),
    ) {
        return Err(too_big());
    }
    assert(chart_ok(c));
    let bits = match gather_bits(&net.outputs, net.sigs.len()) {
        Some(b) => b,
        None => {
            return Err(too_big());
        },
    };
    let inputs: u32 = match count_inputs(net, order, Ghost(c)) {
        Some(n) => n,
        None => {
            return Err(too_big());
        },
    };
    assert(!oversized(d));
    let mut ground = lay_floor(net, order, t, Ghost(d))?;
    let ghost b = floor_of(t, d);
    let bounds = measure(
        &ground.plan.grid,
        ground.plan.widest,
        inputs,
        gates,
        ground.max_level,
        Ghost(c),
        Ghost(b.floor),
    );
    let router = connect(net, order, &mut ground, &bits, bounds, t, Ghost(d))?;
    let levers = find_levers(net, &ground.plan.at);
    let input_levers = list_levers(&levers);
    let output_lamps = list_lamps(&net.outputs, &ground.plan.base);
    let gate_cells = list_cells(net, &ground.plan.base, Ghost(c), Ghost(b.floor));
    let net_reset_lever = find_reset(net, &ground.plan.at);
    let n: usize = net.dffs.len();
    let l =
        Layout {
            grid: ground.plan.grid,
            input_levers,
            output_lamps,
            levels: ground.max_level as usize + 1,
            gates,
            clk_lever: ctrl_place(0, n, Ghost(d)),
            clk_n_lever: ctrl_place(1, n, Ghost(d)),
            rst_lever: ctrl_place(2, n, Ghost(d)),
            net_reset_lever,
            flops: n,
            flop_ports: ground.flops,
            gate_cells,
            wire_owner: router.into_owners(),
        };
    proof {
        if n > 0 && ports_differ(l.flop_ports@) {
            lemma_levers_drive(t, d, l.flop_ports@);
        }
        lemma_pins_wired(l, t, d);
    }
    Ok(l)
}

} // verus!
