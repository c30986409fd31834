//! The control levers: each drives the lines that it is reported for.
use crate::bank::{
    bank_base, bank_built, bank_ports, banked, columns, ctrl_steps, ctrl_tap, flop_column,
    flops_within, lemma_columns, q_sources, FLOOR_EDGE,
};
use crate::clocking::{
    bank_fed, bank_kept, data_fed, flop_fed, flop_kept, flops_fed, kept_at, outer_line, pad_fed,
    pad_kept, pad_text, port_passed, ports_routed, trunk, trunk_reach, trunks_laid, Fed, Outer, Trunks,
};
use crate::deep::spans;
use crate::floorplan::{
    chart_ok, column, deepest, in_range, leaves, levers_placed, row_of, rows_placed, swept, tap_at, wish,
    Chart, Floor, DEPTH_MAX, GATE_Z, LEVEL_H, WIDTH_MAX,
};
use crate::flop::{d_ports, dff_ports, DffPorts};
use crate::keepout::owns;
use crate::layout::{
    all_bits, bank_routed, ctrl_lever, floor_of, outer_of, ports_kept, with_inputs, with_lamps, with_lanes, with_ports,
    with_spines, Draft,
};
use crate::netlist::{gate_operands, Gate, Sig};
use crate::ownership::{bank_of, lemma_spines_owned};
use crate::relay::owned;
use crate::route::{claims_kept, route_ends, Board, NetId, Tuning, Works};
use crate::steps::built;
use crate::tech::{fan_in, moved, nor_out};
use crate::wiring::{driver_level, lamp_pad, readers, spine_laid, spine_wanted, spines_laid};
use crate::world::{Block, Dir, Material, Pos};
use vstd::prelude::*;

verus! {

// --- trunks ------------------------------------------------------------------------------------

/// A trunk is its net's, runs straight from where it begins, and touches no wire elsewhere.
proof fn lemma_trunk(w: Works, net: NetId, out: Pos, t: nat)
    ensures
        ({
            let s = spine_laid(w, net, out, -1, Material::Clock, Dir::South, t);
            &&& owned(s.works.board, out, net)
            &&& forall|i: int| 0 <= i < s.cells.len() ==> (#[trigger] s.cells[i]).0 == out.0 && s.cells[i].1 == out.1
            &&& forall|p: Pos, q: NetId| p.0 != out.0 && #[trigger] owned(w.board, p, q) ==> owned(s.works.board, p, q)
        }),
    decreases t,
{
    if t > 0 {
        lemma_trunk(w, net, out, (t - 1) as nat);
    }
}

/// The three trunks begin at the taps of the three levers, each with its net.
proof fn lemma_trunks(w: Works, first: NetId, flops: Seq<(Pos, Pos)>)
    ensures
        ({
            let t = trunks_laid(w, first, flops);
            let b = t.works.board;
            &&& owned(b, ctrl_tap(0), first)
            &&& owned(b, ctrl_tap(1), (first + 1) as u32)
            &&& owned(b, ctrl_tap(2), (first + 2) as u32)
            &&& forall|i: int| 0 <= i < t.clk.len() ==> (#[trigger] t.clk[i]).0 == -6 && t.clk[i].1 == 6
            &&& forall|i: int| 0 <= i < t.clk_n.len() ==> (#[trigger] t.clk_n[i]).0 == -9 && t.clk_n[i].1 == 6
            &&& forall|i: int| 0 <= i < t.rst.len() ==> (#[trigger] t.rst[i]).0 == -12 && t.rst[i].1 == 6
        }),
{
    let reach = trunk_reach(flops) as nat;
    let a = trunk(w, first, 0, reach);
    let b = trunk(a.works, (first + 1) as u32, 1, reach);
    lemma_trunk(w, first, ctrl_tap(0), reach);
    lemma_trunk(a.works, (first + 1) as u32, ctrl_tap(1), reach);
    lemma_trunk(b.works, (first + 2) as u32, ctrl_tap(2), reach);
}

// --- flip-flops --------------------------------------------------------------------------------

/// The feeds of flip-flops, by what they take.
pub open spec fn is_data(flops: Seq<(Pos, Pos)>, p: Pos) -> bool {
    exists|i: int| 0 <= i < flops.len() && p == d_ports((#[trigger] flops[i]).0).d
}

pub open spec fn is_clk(flops: Seq<(Pos, Pos)>, p: Pos) -> bool {
    exists|i: int| 0 <= i < flops.len() && p == d_ports((#[trigger] flops[i]).0).en
}

pub open spec fn is_clk_n(flops: Seq<(Pos, Pos)>, p: Pos) -> bool {
    exists|i: int| 0 <= i < flops.len() && p == d_ports((#[trigger] flops[i]).1).en
}

pub open spec fn is_clear(flops: Seq<(Pos, Pos)>, p: Pos) -> bool {
    exists|i: int|
        0 <= i < flops.len() && (p == d_ports((#[trigger] flops[i]).0).clr || p == d_ports(flops[i].1).clr)
}

/// No cell takes two things, and all feeds are above the level of the levers.
pub open spec fn feeds_differ(flops: Seq<(Pos, Pos)>) -> bool {
    &&& forall|p: Pos| #[trigger] is_clk(flops, p) ==> p.1 == 7 && !is_data(flops, p)
    &&& forall|p: Pos| #[trigger] is_clk_n(flops, p) ==> p.1 == 7 && !is_data(flops, p) && !is_clk(flops, p)
    &&& forall|p: Pos| #[trigger]
        is_clear(flops, p) ==> p.1 == 7 && !is_data(flops, p) && !is_clk(flops, p) && !is_clk_n(flops, p)
    &&& forall|p: Pos| #[trigger] is_data(flops, p) ==> p.1 == 7
}

/// No spine of a signal that a flip-flop samples runs at the height of the feeds, or through
/// a tap.
pub open spec fn spines_clear(o: Outer, ds: Seq<Sig>) -> bool {
    forall|k: int, i: int|
        0 <= k < ds.len() && 0 <= i < o.spine[ds[k]].len() ==> (#[trigger] o.spine[ds[k]][i]).1 != 7
            && o.spine[ds[k]][i] != ctrl_tap(0) && o.spine[ds[k]][i] != ctrl_tap(1) && o.spine[ds[k]][i]
            != ctrl_tap(2)
}

/// What net a cell belongs to: a tap or a feed.
spec fn belongs(flops: Seq<(Pos, Pos)>, first: NetId, p: Pos, q: NetId) -> bool {
    ||| q == first && (p == ctrl_tap(0) || is_clk(flops, p))
    ||| q == first + 1 && (p == ctrl_tap(1) || is_clk_n(flops, p))
    ||| q == first + 2 && (p == ctrl_tap(2) || is_clear(flops, p))
}

proof fn lemma_kept(a: Board, b: Board, net: NetId, sources: Seq<Pos>, to: Pos, p: Pos, q: NetId)
    requires
        pad_kept(a, b, net, sources, to),
        owned(a, p, q),
        q == net || (p != to && !sources.contains(p)),
    ensures
        owned(b, p, q),
{
    assert(a.owner.contains_key(p));
    if q != net {
        assert(!route_ends(sources, to).contains(p));
    }
}

/// A cell that belongs to a net is none of the ends of the routes of other nets.
spec fn passed_by(o: Outer, t: Trunks, first: NetId, flop: (Pos, Pos), d: Sig, p: Pos, q: NetId) -> bool {
    &&& q == d || (p != d_ports(flop.0).d && !o.spine[d].contains(p))
    &&& q == first || (p != d_ports(flop.0).en && !t.clk.contains(p))
    &&& q == first + 1 || (p != d_ports(flop.1).en && !t.clk_n.contains(p))
    &&& q == first + 2 || (p != d_ports(flop.0).clr && p != d_ports(flop.1).clr && !t.rst.contains(p))
}

proof fn lemma_passed(o: Outer, t: Trunks, first: NetId, flops: Seq<(Pos, Pos)>, ds: Seq<Sig>, i: int, p: Pos, q: NetId)
    requires
        feeds_differ(flops),
        spines_clear(o, ds),
        flops.len() == ds.len(),
        0 <= i < flops.len(),
        ds[i] < first,
        first + 2 <= u32::MAX,
        belongs(flops, first, p, q),
        forall|j: int| 0 <= j < t.clk.len() ==> (#[trigger] t.clk[j]).0 == -6 && t.clk[j].1 == 6,
        forall|j: int| 0 <= j < t.clk_n.len() ==> (#[trigger] t.clk_n[j]).0 == -9 && t.clk_n[j].1 == 6,
        forall|j: int| 0 <= j < t.rst.len() ==> (#[trigger] t.rst[j]).0 == -12 && t.rst[j].1 == 6,
    ensures
        passed_by(o, t, first, flops[i], ds[i], p, q),
{
    assert(is_data(flops, d_ports(flops[i].0).d));
    assert(is_clk(flops, d_ports(flops[i].0).en));
    assert(is_clk_n(flops, d_ports(flops[i].1).en));
    assert(is_clear(flops, d_ports(flops[i].0).clr));
    assert(is_clear(flops, d_ports(flops[i].1).clr));
    if o.spine[ds[i]].contains(p) {
        let k = choose|k: int| 0 <= k < o.spine[ds[i]].len() && o.spine[ds[i]][k] == p;
        assert(o.spine[ds[i]][k].1 != 7);
    }
    if t.clk.contains(p) {
        let k = choose|k: int| 0 <= k < t.clk.len() && t.clk[k] == p;
    }
    if t.clk_n.contains(p) {
        let k = choose|k: int| 0 <= k < t.clk_n.len() && t.clk_n[k] == p;
    }
    if t.rst.contains(p) {
        let k = choose|k: int| 0 <= k < t.rst.len() && t.rst[k] == p;
    }
}

/// Feeding a flip-flop leaves a cell that belongs to a net with that net, and gives it the
/// flip-flop's own feeds.
proof fn lemma_flop_held(o: Outer, t: Trunks, first: NetId, f: Fed, flop: (Pos, Pos), d: Sig, i: nat)
    requires
        flop_kept(o, t, first, f, flop, d, i),
        first + 2 <= u32::MAX,
    ensures
        ({
            let m = d_ports(flop.0);
            let s = d_ports(flop.1);
            let b = flop_fed(o, t, first, f, flop, d, i).works.board;
            &&& forall|p: Pos, q: NetId| #[trigger]
                owned(f.works.board, p, q) && passed_by(o, t, first, flop, d, p, q) ==> owned(b, p, q)
            &&& passed_by(o, t, first, flop, d, m.en, first) ==> owned(b, m.en, first)
            &&& passed_by(o, t, first, flop, d, s.en, (first + 1) as u32) ==> owned(b, s.en, (first + 1) as u32)
            &&& owned(b, m.clr, (first + 2) as u32)
            &&& owned(b, s.clr, (first + 2) as u32)
            &&& passed_by(o, t, first, flop, d, m.d, d) ==> owned(b, m.d, d)
        }),
{
    reveal(flop_kept);
    let m = d_ports(flop.0);
    let s = d_ports(flop.1);
    let (n1, n2) = ((first + 1) as u32, (first + 2) as u32);
    let f1 = data_fed(o, f, flop, d, i);
    let f2 = pad_fed(outer_line(o, first, Material::Clock), f1, t.clk, m.en, 5, pad_text("clk"@, i));
    let f3 = pad_fed(outer_line(o, n1, Material::Clock), f2, t.clk_n, s.en, 5, pad_text("clk_n"@, i));
    let f4 = pad_fed(outer_line(o, n2, Material::Clock), f3, t.rst, m.clr, 5, pad_text("reset 0"@, i));
    let f5 = flop_fed(o, t, first, f, flop, d, i);
    assert forall|p: Pos, q: NetId| #[trigger]
        owned(f.works.board, p, q) && passed_by(o, t, first, flop, d, p, q) implies owned(f5.works.board, p, q) by {
        lemma_kept(f.works.board, f1.works.board, d, o.spine[d], m.d, p, q);
        lemma_kept(f1.works.board, f2.works.board, first, t.clk, m.en, p, q);
        lemma_kept(f2.works.board, f3.works.board, n1, t.clk_n, s.en, p, q);
        lemma_kept(f3.works.board, f4.works.board, n2, t.rst, m.clr, p, q);
        lemma_kept(f4.works.board, f5.works.board, n2, t.rst, s.clr, p, q);
    }
    if passed_by(o, t, first, flop, d, m.en, first) {
        lemma_kept(f2.works.board, f3.works.board, n1, t.clk_n, s.en, m.en, first);
        lemma_kept(f3.works.board, f4.works.board, n2, t.rst, m.clr, m.en, first);
        lemma_kept(f4.works.board, f5.works.board, n2, t.rst, s.clr, m.en, first);
    }
    if passed_by(o, t, first, flop, d, s.en, n1) {
        lemma_kept(f3.works.board, f4.works.board, n2, t.rst, m.clr, s.en, n1);
        lemma_kept(f4.works.board, f5.works.board, n2, t.rst, s.clr, s.en, n1);
    }
    lemma_kept(f4.works.board, f5.works.board, n2, t.rst, s.clr, m.clr, n2);
    if passed_by(o, t, first, flop, d, m.d, d) {
        lemma_kept(f1.works.board, f2.works.board, first, t.clk, m.en, m.d, d);
        lemma_kept(f2.works.board, f3.works.board, n1, t.clk_n, s.en, m.d, d);
        lemma_kept(f3.works.board, f4.works.board, n2, t.rst, m.clr, m.d, d);
        lemma_kept(f4.works.board, f5.works.board, n2, t.rst, s.clr, m.d, d);
    }
}

/// The taps and the feeds of the first `n` flip-flops are with their nets.
pub open spec fn lines_held(b: Board, first: NetId, flops: Seq<(Pos, Pos)>, n: int) -> bool {
    &&& owned(b, ctrl_tap(0), first)
    &&& owned(b, ctrl_tap(1), (first + 1) as u32)
    &&& owned(b, ctrl_tap(2), (first + 2) as u32)
    &&& forall|i: int|
        0 <= i < n ==> {
            &&& owned(b, d_ports((#[trigger] flops[i]).0).en, first)
            &&& owned(b, d_ports(flops[i].1).en, (first + 1) as u32)
            &&& owned(b, d_ports(flops[i].0).clr, (first + 2) as u32)
            &&& owned(b, d_ports(flops[i].1).clr, (first + 2) as u32)
        }
}

proof fn lemma_lines(
    o: Outer,
    w: Works,
    first: NetId,
    flops: Seq<(Pos, Pos)>,
    ds: Seq<Sig>,
    band: int,
    n: nat,
)
    requires
        bank_kept(o, w, first, flops, ds, band, flops.len() as int),
        feeds_differ(flops),
        spines_clear(o, ds),
        flops.len() == ds.len(),
        n <= flops.len(),
        forall|i: int| 0 <= i < ds.len() ==> (#[trigger] ds[i]) < first,
        first + 2 <= u32::MAX,
        ({
            let t = trunks_laid(w, first, flops);
            flops_fed(o, t, first, Fed { works: t.works, band }, flops, ds, n).works.stop is None
        }),
    ensures
        ({
            let t = trunks_laid(w, first, flops);
            lines_held(
                flops_fed(o, t, first, Fed { works: t.works, band }, flops, ds, n).works.board,
                first,
                flops,
                n as int,
            )
        }),
    decreases n,
{
    let t = trunks_laid(w, first, flops);
    let start = Fed { works: t.works, band };
    lemma_trunks(w, first, flops);
    if n > 0 {
        let i = n - 1;
        let before = flops_fed(o, t, first, start, flops, ds, i as nat);
        lemma_lines(o, w, first, flops, ds, band, i as nat);
        assert(kept_at(o, w, first, flops, ds, band, i));
        reveal(kept_at);
        lemma_flop_held(o, t, first, before, flops[i], ds[i], i as nat);
        let after = flops_fed(o, t, first, start, flops, ds, n).works.board;
        let (n1, n2) = ((first + 1) as u32, (first + 2) as u32);
        assert(ds[i] < first);
        assert forall|p: Pos, q: NetId| belongs(flops, first, p, q) implies #[trigger] passed_by(
            o,
            t,
            first,
            flops[i],
            ds[i],
            p,
            q,
        ) by {
            lemma_passed(o, t, first, flops, ds, i, p, q);
        }
        assert(belongs(flops, first, ctrl_tap(0), first));
        assert(belongs(flops, first, ctrl_tap(1), n1));
        assert(belongs(flops, first, ctrl_tap(2), n2));
        assert(passed_by(o, t, first, flops[i], ds[i], ctrl_tap(0), first));
        assert(passed_by(o, t, first, flops[i], ds[i], ctrl_tap(1), n1));
        assert(passed_by(o, t, first, flops[i], ds[i], ctrl_tap(2), n2));
        assert forall|j: int| 0 <= j < n implies {
            &&& owned(after, d_ports((#[trigger] flops[j]).0).en, first)
            &&& owned(after, d_ports(flops[j].1).en, n1)
            &&& owned(after, d_ports(flops[j].0).clr, n2)
            &&& owned(after, d_ports(flops[j].1).clr, n2)
        } by {
            let (m, s) = (d_ports(flops[j].0), d_ports(flops[j].1));
            assert(is_clk(flops, m.en) && is_clk_n(flops, s.en) && is_clear(flops, m.clr) && is_clear(flops, s.clr));
            assert(passed_by(o, t, first, flops[i], ds[i], m.en, first));
            assert(passed_by(o, t, first, flops[i], ds[i], s.en, n1));
            assert(passed_by(o, t, first, flops[i], ds[i], m.clr, n2));
            assert(passed_by(o, t, first, flops[i], ds[i], s.clr, n2));
        }
    }
}

/// No two flip-flops take their data at one cell.
spec fn data_alone(flops: Seq<(Pos, Pos)>) -> bool {
    forall|i: int, j: int|
        0 <= i < j < flops.len() ==> d_ports((#[trigger] flops[i]).0).d != d_ports((#[trigger] flops[j]).0).d
}

/// The data feeds of the first `n` flip-flops are with the signals that these sample.
spec fn data_held(b: Board, flops: Seq<(Pos, Pos)>, ds: Seq<Sig>, n: int) -> bool {
    forall|i: int| 0 <= i < n ==> owned(b, d_ports((#[trigger] flops[i]).0).d, ds[i])
}

proof fn lemma_data_passed(o: Outer, t: Trunks, first: NetId, flops: Seq<(Pos, Pos)>, ds: Seq<Sig>, i: int, j: int)
    requires
        feeds_differ(flops),
        data_alone(flops),
        spines_clear(o, ds),
        flops.len() == ds.len(),
        0 <= j <= i < flops.len(),
        forall|k: int| 0 <= k < t.clk.len() ==> (#[trigger] t.clk[k]).1 == 6,
        forall|k: int| 0 <= k < t.clk_n.len() ==> (#[trigger] t.clk_n[k]).1 == 6,
        forall|k: int| 0 <= k < t.rst.len() ==> (#[trigger] t.rst[k]).1 == 6,
    ensures
        passed_by(o, t, first, flops[i], ds[i], d_ports(flops[j].0).d, ds[j]),
{
    let p = d_ports(flops[j].0).d;
    assert(is_data(flops, p));
    assert(is_clk(flops, d_ports(flops[i].0).en));
    assert(is_clk_n(flops, d_ports(flops[i].1).en));
    assert(is_clear(flops, d_ports(flops[i].0).clr));
    assert(is_clear(flops, d_ports(flops[i].1).clr));
    if o.spine[ds[i]].contains(p) {
        let k = choose|k: int| 0 <= k < o.spine[ds[i]].len() && o.spine[ds[i]][k] == p;
        assert(o.spine[ds[i]][k].1 != 7);
    }
    if t.clk.contains(p) {
        let k = choose|k: int| 0 <= k < t.clk.len() && t.clk[k] == p;
    }
    if t.clk_n.contains(p) {
        let k = choose|k: int| 0 <= k < t.clk_n.len() && t.clk_n[k] == p;
    }
    if t.rst.contains(p) {
        let k = choose|k: int| 0 <= k < t.rst.len() && t.rst[k] == p;
    }
}

proof fn lemma_data(
    o: Outer,
    w: Works,
    first: NetId,
    flops: Seq<(Pos, Pos)>,
    ds: Seq<Sig>,
    band: int,
    n: nat,
)
    requires
        bank_kept(o, w, first, flops, ds, band, flops.len() as int),
        feeds_differ(flops),
        data_alone(flops),
        spines_clear(o, ds),
        flops.len() == ds.len(),
        n <= flops.len(),
        first + 2 <= u32::MAX,
        ({
            let t = trunks_laid(w, first, flops);
            flops_fed(o, t, first, Fed { works: t.works, band }, flops, ds, n).works.stop is None
        }),
    ensures
        ({
            let t = trunks_laid(w, first, flops);
            data_held(
                flops_fed(o, t, first, Fed { works: t.works, band }, flops, ds, n).works.board,
                flops,
                ds,
                n as int,
            )
        }),
    decreases n,
{
    let t = trunks_laid(w, first, flops);
    let start = Fed { works: t.works, band };
    if n > 0 {
        let i = n - 1;
        let before = flops_fed(o, t, first, start, flops, ds, i as nat);
        lemma_trunks(w, first, flops);
        lemma_data(o, w, first, flops, ds, band, i as nat);
        assert(kept_at(o, w, first, flops, ds, band, i));
        reveal(kept_at);
        lemma_flop_held(o, t, first, before, flops[i], ds[i], i as nat);
        let after = flops_fed(o, t, first, start, flops, ds, n).works.board;
        assert forall|j: int| 0 <= j < n implies owned(after, d_ports((#[trigger] flops[j]).0).d, ds[j]) by {
            lemma_data_passed(o, t, first, flops, ds, i, j);
            if j < i {
                assert(owned(before.works.board, d_ports(flops[j].0).d, ds[j]));
            }
        }
    }
}

/// Each control line is one net from its lever's tap to every feed that it drives: in the
/// finished works the tap of the first lever and the clock feeds of all flip-flops have one
/// owner, that of the second and the inverted clock feeds another, and that of the third and
/// the clear feeds a third.
pub proof fn lemma_control_lines(o: Outer, w: Works, first: NetId, flops: Seq<(Pos, Pos)>, ds: Seq<Sig>, band: int)
    requires
        bank_kept(o, w, first, flops, ds, band, flops.len() as int),
        feeds_differ(flops),
        spines_clear(o, ds),
        0 < flops.len() == ds.len(),
        forall|i: int| 0 <= i < ds.len() ==> (#[trigger] ds[i]) < first,
        first + 2 <= u32::MAX,
        bank_fed(o, w, first, flops, ds, band).stop is None,
    ensures
        lines_held(bank_fed(o, w, first, flops, ds, band).board, first, flops, flops.len() as int),
{
    lemma_lines(o, w, first, flops, ds, band, flops.len());
}

// --- where signals come out ----------------------------------------------------------------------

/// Signals come out at or right of the first column, at a level of levers or gates.
pub open spec fn outputs_right(at: Map<Sig, Pos>) -> bool {
    forall|s: Sig| #[trigger] at.contains_key(s) ==> at[s].0 >= 0 && at[s].1 as int % 6 == 0
}

/// Flip-flops stand at or right of the first column, at the level of the levers.
pub open spec fn flops_right(flops: Seq<(Pos, Pos)>) -> bool {
    forall|i: int|
        0 <= i < flops.len() ==> {
            &&& 0 <= (#[trigger] flops[i]).0.0 <= 0x1000_0000
            &&& flops[i].0.1 == 6
            &&& flops[i].1.0 == flops[i].0.0
            &&& flops[i].1.1 == 6
        }
}

proof fn lemma_levers_right(c: Chart, row: Seq<Sig>, n: nat)
    requires
        n <= row.len(),
        3 * row.len() <= WIDTH_MAX,
    ensures
        outputs_right(levers_placed(c, row, n).at),
        gates_level(levers_placed(c, row, n).base),
    decreases n,
{
    if n > 0 {
        lemma_levers_right(c, row, (n - 1) as nat);
        assert(tap_at(n - 1).0 == 3 * (n - 1));
    }
}

proof fn lemma_bank_right(t: Tuning, edge: int, cells: Map<Pos, Block>, base: Pos, n: nat, k: nat)
    requires
        base.0 == 0,
        base.1 == 6,
        edge <= 0x1000_0000,
    ensures
        flops_right(bank_built(t, edge, cells, base, n, k).flops),
    decreases k,
{
    if k > 0 {
        lemma_bank_right(t, edge, cells, base, n, (k - 1) as nat);
        lemma_columns(n);
        let cols = columns(n) as int;
        assert((k - 1) % cols >= 0) by (nonlinear_arith)
            requires
                cols >= 1,
        ;
        assert(flop_column(n, k - 1) >= 0);
        let b = bank_built(t, edge, cells, base, n, (k - 1) as nat);
        let after = bank_built(t, edge, cells, base, n, k);
        assert forall|i: int| 0 <= i < after.flops.len() implies {
            &&& 0 <= (#[trigger] after.flops[i]).0.0 <= 0x1000_0000
            &&& after.flops[i].0.1 == 6
            &&& after.flops[i].1.0 == after.flops[i].0.0
            &&& after.flops[i].1.1 == 6
        } by {
            if i < b.flops.len() {
                assert(after.flops[i] == b.flops[i]);
            }
        }
    }
}

proof fn lemma_q_right(gates: Seq<Gate>, flops: Seq<(Pos, Pos)>, f: Floor, k: nat)
    requires
        flops_right(flops),
        outputs_right(f.at),
        k <= flops.len(),
    ensures
        outputs_right(q_sources(gates, flops, f, k).at),
        q_sources(gates, flops, f, k).base == f.base,
    decreases k,
{
    if k > 0 {
        lemma_q_right(gates, flops, f, (k - 1) as nat);
        let p = flops[k - 1].1;
        assert(flops[k - 1].0.0 >= 0);
        assert(d_ports(p).q.0 == p.0 + 61 && d_ports(p).q.1 == p.1);
    }
}

/// Gates stand at the heights of their levels.
pub open spec fn gates_level(base: Map<Sig, Pos>) -> bool {
    forall|s: Sig| #[trigger] base.contains_key(s) ==> base[s].1 as int % 6 == 0 && base[s].1 >= -DEPTH_MAX
}

proof fn lemma_swept_right(c: Chart, start: Floor, l: nat, row: Seq<Sig>, n: nat)
    requires
        outputs_right(start.at),
        gates_level(start.base),
        6 * l <= DEPTH_MAX,
    ensures
        outputs_right(swept(c, start, l, row, n).floor.at),
        gates_level(swept(c, start, l, row, n).floor.base),
    decreases n,
{
    if n > 0 {
        lemma_swept_right(c, start, l, row, (n - 1) as nat);
        let s = swept(c, start, l, row, (n - 1) as nat);
        if s.floor.stop is None {
            let g = row[n - 1];
            let k = fan_in(gate_operands(c.gates[g as int]).len() as int);
            let x = column(wish(c, start.at, g), s.x);
            if x + 2 * k <= WIDTH_MAX {
                let base: Pos = (x as i32, (-(l * LEVEL_H)) as i32, GATE_Z);
                assert(nor_out(base).0 == x && nor_out(base).1 == -(6 * l));
                assert((-(6 * l)) % 6 == 0) by (nonlinear_arith);
            }
        }
    }
}

proof fn lemma_rows_right(c: Chart, start: Floor, l: nat)
    requires
        outputs_right(start.at),
        gates_level(start.base),
        6 * l <= DEPTH_MAX,
    ensures
        outputs_right(rows_placed(c, start, l).at),
        gates_level(rows_placed(c, start, l).base),
    decreases l,
{
    if l > 0 {
        lemma_rows_right(c, start, (l - 1) as nat);
        let f = rows_placed(c, start, (l - 1) as nat);
        let row = row_of(c, f.at, l, c.order.len());
        lemma_swept_right(c, f, l, row, row.len());
    }
}

/// The signals and the flip-flops of a floor.
proof fn lemma_floor_right(t: Tuning, d: Draft)
    requires
        chart_ok(d.chart),
        floor_of(t, d).floor.stop is None,
    ensures
        outputs_right(floor_of(t, d).floor.at),
        gates_level(floor_of(t, d).floor.base),
        flops_right(floor_of(t, d).flops),
{
    reveal(floor_of);
    let c = d.chart;
    let row = leaves(c, c.gates.len());
    let levers = levers_placed(c, row, row.len());
    lemma_levers_right(c, row, row.len());
    let b = banked(t, c.gates, levers, d.ds.len());
    let n = d.ds.len();
    if n > 0 {
        let base = bank_base(t, n);
        let made = bank_built(t, FLOOR_EDGE as int, levers.cells, base, n, n);
        lemma_bank_right(t, FLOOR_EDGE as int, levers.cells, base, n, n);
        if made.stop is None {
            lemma_bank_length(t, FLOOR_EDGE as int, levers.cells, base, n, n);
            let on = built(made.cells, ctrl_steps(0) + ctrl_steps(1) + ctrl_steps(2));
            if on.1 is None {
                lemma_q_right(c.gates, made.flops, Floor { cells: on.0, ..levers }, n);
            }
        }
    }
    lemma_rows_right(c, b.floor, deepest(c, c.order.len()));
}

proof fn lemma_bank_length(t: Tuning, edge: int, cells: Map<Pos, Block>, base: Pos, n: nat, k: nat)
    requires
        bank_built(t, edge, cells, base, n, k).stop is None,
    ensures
        bank_built(t, edge, cells, base, n, k).flops.len() == k,
    decreases k,
{
    if k > 0 {
        lemma_bank_length(t, edge, cells, base, n, (k - 1) as nat);
    }
}

/// Cells in a line along Z.
spec fn straight(cells: Seq<Pos>, out: Pos) -> bool {
    forall|i: int| 0 <= i < cells.len() ==> (#[trigger] cells[i]).0 == out.0 && cells[i].1 == out.1
}

proof fn lemma_spine_straight(w: Works, net: NetId, out: Pos, t: nat)
    ensures
        ({
            let s = spine_laid(w, net, out, 1, Material::Wire, Dir::North, t);
            straight(s.cells, out)
        }),
    decreases t,
{
    if t > 0 {
        lemma_spine_straight(w, net, out, (t - 1) as nat);
    }
}

/// Spines run straight from where their signals come out.
proof fn lemma_spines_straight(c: Chart, w: Works, at: Map<Sig, Pos>, n: nat)
    ensures
        ({
            let spine = spines_laid(c, w, at, n).spine;
            forall|s: Sig| #[trigger] spine.contains_key(s) ==> at.contains_key(s) && straight(spine[s], at[s])
        }),
    decreases n,
{
    if n > 0 {
        lemma_spines_straight(c, w, at, (n - 1) as nat);
        let s = (n - 1) as u32;
        if at.contains_key(s) {
            lemma_spine_straight(
                spines_laid(c, w, at, (n - 1) as nat).works,
                s,
                at[s],
                spine_wanted(readers(c, s, c.order.len())),
            );
        }
    }
}

// --- the layout ------------------------------------------------------------------------------------

/// The cells that take two different things, as the ports say it: none.
pub open spec fn ports_differ(ports: Seq<DffPorts>) -> bool {
    forall|i: int, j: int|
        #![trigger ports[i], ports[j]]
        0 <= i < ports.len() && 0 <= j < ports.len() ==> {
            &&& apart(ports[i].clk_feeds@, ports[j].d_feeds@)
            &&& apart(ports[i].clk_n_feeds@, ports[j].d_feeds@)
            &&& apart(ports[i].clr_feeds@, ports[j].d_feeds@)
            &&& apart(ports[i].clk_feeds@, ports[j].clk_n_feeds@)
            &&& apart(ports[i].clk_feeds@, ports[j].clr_feeds@)
            &&& apart(ports[i].clk_n_feeds@, ports[j].clr_feeds@)
        }
}

pub open spec fn apart(a: Seq<Pos>, b: Seq<Pos>) -> bool {
    forall|i: int, j: int|
        #![trigger a[i], b[j]]
        0 <= i < a.len() && 0 <= j < b.len() ==> a[i] != b[j]
}

/// No two flip-flops take their data at one cell.
pub open spec fn data_apart(ports: Seq<DffPorts>) -> bool {
    forall|i: int, j: int|
        0 <= i < j < ports.len() ==> apart((#[trigger] ports[i]).d_feeds@, (#[trigger] ports[j]).d_feeds@)
}

/// The data feeds of every flip-flop are wire of the signal that it samples.
pub open spec fn data_reached(owner: Map<Pos, NetId>, ports: Seq<DffPorts>, ds: Seq<Sig>) -> bool {
    &&& ports.len() == ds.len()
    &&& forall|i: int| 0 <= i < ports.len() ==> all_owned(owner, (#[trigger] ports[i]).d_feeds@, ds[i])
}

/// The dust north of a lever, and every one of some feeds, are wire of `net`.
pub open spec fn drives(owner: Map<Pos, NetId>, lever: Option<Pos>, net: NetId) -> bool {
    match lever {
        Some(p) => owner.contains_key(moved(p, 0, 0, -1)) && owner[moved(p, 0, 0, -1)] == net,
        None => false,
    }
}

pub open spec fn all_owned(owner: Map<Pos, NetId>, feeds: Seq<Pos>, net: NetId) -> bool {
    forall|i: int| 0 <= i < feeds.len() ==> owner.contains_key(#[trigger] feeds[i]) && owner[feeds[i]] == net
}

/// The three levers drive three nets: the first every clock feed, the second every inverted
/// clock feed, the third every clear feed.
pub open spec fn levers_drive(
    owner: Map<Pos, NetId>,
    clk: Option<Pos>,
    clk_n: Option<Pos>,
    rst: Option<Pos>,
    ports: Seq<DffPorts>,
) -> bool {
    exists|a: NetId, b: NetId, c: NetId|
        a != b && b != c && a != c && drives(owner, clk, a) && drives(owner, clk_n, b) && drives(owner, rst, c)
            && #[trigger] lines_reach(owner, ports, a, b, c)
}

pub open spec fn lines_reach(owner: Map<Pos, NetId>, ports: Seq<DffPorts>, a: NetId, b: NetId, c: NetId) -> bool {
    forall|i: int|
        0 <= i < ports.len() ==> {
            &&& all_owned(owner, (#[trigger] ports[i]).clk_feeds@, a)
            &&& all_owned(owner, ports[i].clk_n_feeds@, b)
            &&& all_owned(owner, ports[i].clr_feeds@, c)
        }
}

proof fn lemma_feeds_differ(flops: Seq<(Pos, Pos)>, ports: Seq<DffPorts>)
    requires
        flops_right(flops),
        bank_ports(ports, flops),
        ports_differ(ports),
    ensures
        feeds_differ(flops),
{
    assert forall|i: int| 0 <= i < flops.len() implies {
        let (m, s) = (d_ports((#[trigger] flops[i]).0), d_ports(flops[i].1));
        &&& m.d.1 == 7 && m.en.1 == 7 && s.en.1 == 7 && m.clr.1 == 7 && s.clr.1 == 7
        &&& ports[i].d_feeds@ == seq![m.d]
        &&& ports[i].clk_feeds@ == seq![m.en]
        &&& ports[i].clk_n_feeds@ == seq![s.en]
        &&& ports[i].clr_feeds@ == seq![m.clr, s.clr]
    } by {
        assert(flops[i].0.1 == 6);
        assert(dff_ports(ports[i], flops[i].0, flops[i].1));
    }
    assert forall|i: int, j: int| 0 <= i < flops.len() && 0 <= j < flops.len() implies {
        let (m, s) = (d_ports((#[trigger] flops[i]).0), d_ports(flops[i].1));
        let (n, u) = (d_ports((#[trigger] flops[j]).0), d_ports(flops[j].1));
        &&& m.en != n.d && s.en != n.d && m.clr != n.d && s.clr != n.d
        &&& m.en != u.en
        &&& m.en != n.clr && m.en != u.clr && s.en != n.clr && s.en != u.clr
    } by {
        let (p, q) = (ports[i], ports[j]);
        assert(apart(ports[i].clk_feeds@, ports[j].d_feeds@));
        assert(p.clk_feeds@[0] != q.d_feeds@[0]);
        assert(p.clk_n_feeds@[0] != q.d_feeds@[0]);
        assert(p.clr_feeds@[0] != q.d_feeds@[0]);
        assert(p.clr_feeds@[1] != q.d_feeds@[0]);
        assert(p.clk_feeds@[0] != q.clk_n_feeds@[0]);
        assert(p.clk_feeds@[0] != q.clr_feeds@[0]);
        assert(p.clk_feeds@[0] != q.clr_feeds@[1]);
        assert(p.clk_n_feeds@[0] != q.clr_feeds@[0]);
        assert(p.clk_n_feeds@[0] != q.clr_feeds@[1]);
    }
}

/// Each control lever drives what it is reported for. In the finished layout of a netlist
/// with flip-flops, the dust north of the clock lever is wire of the net that owns the clock
/// feeds of every flip-flop, that of the inverted clock lever is wire of the net that owns
/// the inverted clock feeds, and that of the reset lever is wire of the net that owns the
/// clear feeds: three different nets. The data feeds are wire of the signals that the
/// flip-flops sample.
pub proof fn lemma_levers_drive(t: Tuning, d: Draft, ports: Seq<DffPorts>)
    requires
        chart_ok(d.chart),
        floor_of(t, d).floor.stop is None,
        with_ports(t, d, floor_of(t, d)).stop is None,
        bank_routed(t, d),
        bank_ports(ports, floor_of(t, d).flops),
        ports_differ(ports),
        0 < d.ds.len() == ports.len(),
        forall|i: int| 0 <= i < d.ds.len() ==> (#[trigger] d.ds[i]) < d.chart.gates.len(),
        with_lamps(d, floor_of(t, d).floor).stop is None,
    ensures
        levers_drive(
            with_ports(t, d, floor_of(t, d)).board.owner,
            ctrl_lever(d, 0),
            ctrl_lever(d, 1),
            ctrl_lever(d, 2),
            ports,
        ),
        data_apart(ports) ==> data_reached(with_ports(t, d, floor_of(t, d)).board.owner, ports, d.ds),
{
    let b = floor_of(t, d);
    let o = outer_of(t, d, b.floor);
    let q = with_inputs(t, d, b.floor);
    let w = ports_routed(o, q.works, b.floor.base, d.outs, d.outs.len());
    let first = d.chart.gates.len() as u32;
    lemma_floor_right(t, d);
    lemma_feeds_differ(b.flops, ports);
    reveal(with_spines);
    reveal(with_ports);
    lemma_spines_straight(d.chart, with_lamps(d, b.floor), b.floor.at, d.chart.gates.len());
    assert(spines_clear(o, d.ds)) by {
        assert forall|k: int, i: int| 0 <= k < d.ds.len() && 0 <= i < o.spine[d.ds[k]].len() implies (
        #[trigger] o.spine[d.ds[k]][i]).1 != 7 && o.spine[d.ds[k]][i] != ctrl_tap(0) && o.spine[d.ds[k]][i] != ctrl_tap(
            1,
        ) && o.spine[d.ds[k]][i] != ctrl_tap(2) by {
            let s = d.ds[k];
            assert(kept_at(o, w, first, b.flops, d.ds, q.band, k));
            assert(o.spine.contains_key(s)) by {
                reveal(kept_at);
                reveal(flop_kept);
            }
            assert(b.floor.at.contains_key(s));
        }
    }
    lemma_control_lines(o, w, first, b.flops, d.ds, q.band);
    let owner = with_ports(t, d, b).board.owner;
    let (n1, n2) = ((first + 1) as u32, (first + 2) as u32);
    assert(moved(moved(ctrl_tap(0), 0, 0, 1), 0, 0, -1) == ctrl_tap(0));
    assert(moved(moved(ctrl_tap(1), 0, 0, 1), 0, 0, -1) == ctrl_tap(1));
    assert(moved(moved(ctrl_tap(2), 0, 0, 1), 0, 0, -1) == ctrl_tap(2));
    assert(lines_reach(owner, ports, first, n1, n2)) by {
        assert forall|i: int| 0 <= i < ports.len() implies {
            &&& all_owned(owner, (#[trigger] ports[i]).clk_feeds@, first)
            &&& all_owned(owner, ports[i].clk_n_feeds@, n1)
            &&& all_owned(owner, ports[i].clr_feeds@, n2)
        } by {
            assert(dff_ports(ports[i], b.flops[i].0, b.flops[i].1));
        }
    }
    if data_apart(ports) {
        assert(data_alone(b.flops)) by {
            assert forall|i: int, j: int| 0 <= i < j < b.flops.len() implies d_ports((#[trigger] b.flops[i]).0).d
                != d_ports((#[trigger] b.flops[j]).0).d by {
                assert(dff_ports(ports[i], b.flops[i].0, b.flops[i].1));
                assert(dff_ports(ports[j], b.flops[j].0, b.flops[j].1));
                assert(apart(ports[i].d_feeds@, ports[j].d_feeds@));
                assert(ports[i].d_feeds@[0] != ports[j].d_feeds@[0]);
            }
        }
        lemma_data(o, w, first, b.flops, d.ds, q.band, b.flops.len());
        assert forall|i: int| 0 <= i < ports.len() implies all_owned(owner, (#[trigger] ports[i]).d_feeds@, d.ds[i]) by {
            assert(dff_ports(ports[i], b.flops[i].0, b.flops[i].1));
            assert(owned(with_ports(t, d, b).board, d_ports(b.flops[i].0).d, d.ds[i]));
        }
    }
}

// --- signals ----------------------------------------------------------------------------------------

/// Connecting the bank leaves a cell where a signal comes out with that signal.
proof fn lemma_signal_kept(
    o: Outer,
    w: Works,
    first: NetId,
    flops: Seq<(Pos, Pos)>,
    ds: Seq<Sig>,
    band: int,
    n: nat,
    p: Pos,
    q: NetId,
)
    requires
        bank_kept(o, w, first, flops, ds, band, flops.len() as int),
        flops_right(flops),
        flops.len() == ds.len(),
        n <= flops.len(),
        first + 2 <= u32::MAX,
        p.0 >= 0,
        p.1 as int % 6 == 0,
        forall|i: int| 0 <= i < ds.len() ==> (#[trigger] ds[i]) == q || !o.spine[ds[i]].contains(p),
        owned(w.board, p, q),
        ({
            let t = trunks_laid(w, first, flops);
            flops_fed(o, t, first, Fed { works: t.works, band }, flops, ds, n).works.stop is None
        }),
    ensures
        ({
            let t = trunks_laid(w, first, flops);
            owned(flops_fed(o, t, first, Fed { works: t.works, band }, flops, ds, n).works.board, p, q)
        }),
    decreases n,
{
    let t = trunks_laid(w, first, flops);
    let start = Fed { works: t.works, band };
    let reach = trunk_reach(flops) as nat;
    let a = trunk(w, first, 0, reach);
    let b = trunk(a.works, (first + 1) as u32, 1, reach);
    lemma_trunk(w, first, ctrl_tap(0), reach);
    lemma_trunk(a.works, (first + 1) as u32, ctrl_tap(1), reach);
    lemma_trunk(b.works, (first + 2) as u32, ctrl_tap(2), reach);
    assert(owned(a.works.board, p, q));
    assert(owned(b.works.board, p, q));
    lemma_trunks(w, first, flops);
    if n > 0 {
        let i = n - 1;
        let before = flops_fed(o, t, first, start, flops, ds, i as nat);
        lemma_signal_kept(o, w, first, flops, ds, band, i as nat, p, q);
        assert(kept_at(o, w, first, flops, ds, band, i));
        reveal(kept_at);
        lemma_flop_held(o, t, first, before, flops[i], ds[i], i as nat);
        assert(flops[i].0.1 == 6);
        let (m, s) = (d_ports(flops[i].0), d_ports(flops[i].1));
        assert(m.d.1 == 7 && m.en.1 == 7 && s.en.1 == 7 && m.clr.1 == 7 && s.clr.1 == 7);
        assert(ds[i] == q || !o.spine[ds[i]].contains(p));
        assert(!t.clk.contains(p) && !t.clk_n.contains(p) && !t.rst.contains(p));
        assert(passed_by(o, t, first, flops[i], ds[i], p, q));
    }
}

/// Every signal comes out on wire of its own.
pub open spec fn outputs_owned(owner: Map<Pos, NetId>, at: Map<Sig, Pos>, n: nat) -> bool {
    forall|s: Sig| #[trigger]
        at.contains_key(s) && s < n ==> owner.contains_key(at[s]) && owner[at[s]] == s
}

/// Where a signal comes out is on no other signal's spine, and at no lamp.
proof fn lemma_out_passed(o: Outer, lanes: Board, base: Map<Sig, Pos>, bits: Seq<Sig>, p: Pos, s: Sig)
    requires
        forall|x: Sig| #[trigger] o.spine.contains_key(x) ==> owns(lanes, x, o.spine[x]),
        owned(lanes, p, s),
        gates_level(base),
        p.1 as int % 6 == 0,
    ensures
        forall|x: Sig| #[trigger] o.spine.contains_key(x) && x != s ==> !o.spine[x].contains(p),
        port_passed(o, base, bits, 0, p, s),
{
    assert forall|x: Sig| #[trigger] o.spine.contains_key(x) && x != s implies !o.spine[x].contains(p) by {
        if o.spine[x].contains(p) {
            let i = choose|i: int| 0 <= i < o.spine[x].len() && o.spine[x][i] == p;
            assert(lanes.owner[o.spine[x][i]] == x);
        }
    }
    assert forall|i: int| 0 <= i < bits.len() implies (#[trigger] bits[i]) == s || (p != lamp_pad(base, bits[i], 0 + i)
        && (o.spine.contains_key(bits[i]) ==> !o.spine[bits[i]].contains(p))) by {
        let y = driver_level(base, bits[i]);
        assert(y % 6 == 0 && -DEPTH_MAX <= y);
        assert((y - 4) % 6 == 2);
        assert(lamp_pad(base, bits[i], i).1 == y - 4);
    }
}

/// In the finished layout, the cell that a lever, a gate or a flip-flop drives is wire of the
/// signal that it is there for.
pub proof fn lemma_outputs_owned(t: Tuning, d: Draft)
    requires
        chart_ok(d.chart),
        floor_of(t, d).floor.stop is None,
        in_range(floor_of(t, d).floor),
        spans(bank_of(t, d).floor.cells, 0x0900_0000),
        flops_within(bank_of(t, d).flops, 0x0880_0000),
        with_lanes(d, floor_of(t, d).floor).stop is None,
        with_lamps(d, floor_of(t, d).floor).stop is None,
        claims_kept(with_lanes(d, floor_of(t, d).floor).board, with_inputs(t, d, floor_of(t, d).floor).works.board),
        ports_kept(t, d),
        bank_routed(t, d),
        with_ports(t, d, floor_of(t, d)).stop is None,
        floor_of(t, d).flops.len() == d.ds.len(),
        forall|i: int| 0 <= i < d.ds.len() ==> (#[trigger] d.ds[i]) < d.chart.gates.len(),
    ensures
        outputs_owned(
            with_ports(t, d, floor_of(t, d)).board.owner,
            floor_of(t, d).floor.at,
            d.chart.gates.len(),
        ),
{
    let b = floor_of(t, d);
    let f = b.floor;
    let o = outer_of(t, d, f);
    let q = with_inputs(t, d, f);
    let w = ports_routed(o, q.works, f.base, d.outs, d.outs.len());
    let first = d.chart.gates.len() as u32;
    let bits = all_bits(d);
    let lanes = with_lanes(d, f).board;
    lemma_floor_right(t, d);
    lemma_spines_owned(t, d);
    reveal(with_ports);
    assert forall|s: Sig| #[trigger] f.at.contains_key(s) && s < d.chart.gates.len() implies owned(
        with_ports(t, d, b).board,
        f.at[s],
        s,
    ) by {
        let p = f.at[s];
        let i = choose|i: int| 0 <= i < o.spine[s].len() && o.spine[s][i] == p;
        assert(owns(lanes, s, o.spine[s]));
        assert(lanes.owner.contains_key(p) && lanes.owner[p] == s && lanes.claimed.contains(p));
        assert(owned(q.works.board, p, s));
        lemma_out_passed(o, lanes, f.base, bits, p, s);
        assert(owned(w.board, p, s));
        if d.ds.len() > 0 {
            assert forall|k: int| 0 <= k < d.ds.len() implies (#[trigger] d.ds[k]) == s || !o.spine[d.ds[k]].contains(
                p,
            ) by {
                assert(kept_at(o, w, first, b.flops, d.ds, q.band, k));
                assert(o.spine.contains_key(d.ds[k])) by {
                    reveal(kept_at);
                    reveal(flop_kept);
                }
            }
            lemma_signal_kept(o, w, first, b.flops, d.ds, q.band, b.flops.len(), p, s);
        }
    }
}

} // verus!
