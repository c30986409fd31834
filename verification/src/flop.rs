//! Storage macros: the gated D latch and the flip-flop.
use crate::deep::{
    lemma_built_spans, lemma_latch_spans, lemma_nor_within, lemma_puts_join, puts_within, spans,
    within,
};
use crate::route::{
    board_from, board_ok, can_route, claimed_by, lemma_routed_span, net_routed, usual_tuning,
    wanted_of, Board, NetId, Router, Tuning, Wanted, Works,
};
use crate::steps::{built, lemma_built_join, put, refusal, Step};
use crate::tech::{
    dust, in_world, latch_b, latch_built, moved, nor_feeds, nor_out, nor_steps, repeater, stamp_nor,
    stamp_rs_latch, well_inside,
};
use crate::text::{decimal, push_decimal};
use crate::world::{above, below, block_at, pos_label, push_pos, Block, Dir, Grid, Material, Pos};
use vstd::prelude::*;
use vstd::string::*;

verus! {

/// A D latch at `base` stays within `n`.
pub open spec fn room_for(base: Pos, n: int) -> bool {
    within(base, n - 150) && n <= 0x1000_1000
}

/// A tuning that the router can work with.
pub open spec fn tuning_ok(t: Tuning) -> bool {
    t.attempts <= 0x10_0000 && t.slope_div > 0
}

/// A connection inside a macro: both ends are claimed for the net, and it is routed.
#[verifier::opaque]
pub open spec fn leg(
    t: Tuning,
    w: Works,
    bounds: (Pos, Pos),
    net: NetId,
    from: Pos,
    to: Pos,
    decay: i32,
    prefix: Seq<char>,
) -> Works {
    if w.stop is Some {
        w
    } else {
        let r = net_routed(
            leg_wanted(t, bounds, net, from, to, decay),
            claimed_by(claimed_by(w.board, from, net), to, net),
            w.cells,
        );
        Works {
            stop: match r.stop {
                Some(e) => Some(prefix + e),
                None => None,
            },
            ..r
        }
    }
}

/// What has stopped goes no further.
proof fn lemma_legs_stop()
    ensures
        forall|
            t: Tuning,
            w: Works,
            bounds: (Pos, Pos),
            net: NetId,
            from: Pos,
            to: Pos,
            decay: i32,
            prefix: Seq<char>,
        |
            w.stop is Some ==> #[trigger] leg(t, w, bounds, net, from, to, decay, prefix) == w,
{
    reveal(leg);
}

pub open spec fn leg_wanted(t: Tuning, bounds: (Pos, Pos), net: NetId, from: Pos, to: Pos, decay: i32) -> Wanted {
    Wanted {
        tuning: t,
        max_expansions: 250_000,
        net,
        sources: seq![from],
        to,
        bounds,
        material: Material::Gate,
        decay,
    }
}

/// The router and the grid are as the works say.
pub open spec fn at_work(w: Works, r: Router, g: Grid, t: Tuning, n: int) -> bool {
    &&& w.stop is None
    &&& r@ == w.board
    &&& g@ == w.cells
    &&& r.tuning == t
    &&& r.max_expansions == 250_000
    &&& board_ok(r@)
    &&& spans(g@, n)
}

/// Lay a connection inside a macro.
fn lay_leg(
    g: &mut Grid,
    r: &mut Router,
    bounds: (Pos, Pos),
    net: NetId,
    from: Pos,
    to: Pos,
    decay: i32,
    prefix: String,
    Ghost(w): Ghost<Works>,
    Ghost(t): Ghost<Tuning>,
    Ghost(n): Ghost<int>,
) -> (res: Result<(), String>)
    requires
        at_work(w, *old(r), *old(g), t, n),
        tuning_ok(t),
        in_world(from),
        in_world(to),
        within(bounds.0, n - 1),
        within(bounds.1, n - 1),
        n <= 0x2000_0000,
    ensures
        ({
            let after = leg(t, w, bounds, net, from, to, decay, prefix@);
            &&& spans(after.cells, n)
            &&& final(g)@ == after.cells
            &&& match res {
                Ok(_) => at_work(after, *final(r), *final(g), t, n),
                Err(m) => after.stop == Some(m@),
            }
        }),
{
    proof {
        reveal(leg);
    }
    r.claim(from, net);
    r.claim(to, net);
    let mut sources: Vec<Pos> = Vec::new();
    sources.push(from);
    proof {
        assert(sources@ =~= seq![from]);
        let want = wanted_of(*r, net, sources@, to, bounds, Material::Gate, decay);
        assert(want == leg_wanted(t, bounds, net, from, to, decay));
        assert(can_route(want));
        lemma_routed_span(want, r@, g@, n);
    }
    match r.route(g, net, sources.as_slice(), to, bounds, Material::Gate, decay) {
        Ok(_) => Ok(()),
        Err(e) => {
            let mut m = prefix;
            m.append(e.as_str());
            Err(m)
        },
    }
}

// --- the D latch -----------------------------------------------------------------------

/// The ports of a D latch, on its boundary and inside.
pub struct DLatchPorts {
    /// Boundary ports on the macro's north face: one pad per logical input,
    /// fanned out internally. Drive these, not the `_a`/`_b` feeds.
    pub d: Pos,
    pub en: Pos,
    pub d_a: Pos,
    pub d_b: Pos,
    pub en_a: Pos,
    pub en_b: Pos,
    pub q: Pos,
    pub q_not: Pos,
    /// Asynchronous clear: hold high to force `q` low, release to hold cleared.
    pub clr: Pos,
    /// The two links into the latch. Exposed so their *arriving strength* can be
    /// measured, not just whether they arrive.
    pub set_feed: Pos,
    pub reset_feed: Pos,
    /// Output of the inverter feeding the R gate's `!E` input.
    pub not_e_r: Pos,
    /// The reset gate's output.
    pub r_out: Pos,
}

/// Where the gates of a D latch stand: the two enable inverters, the data inverter,
/// the set and reset gates, and the RS latch.
pub open spec fn d_gate(base: Pos, i: int) -> Pos {
    if i == 5 {
        moved(base, 55, 0, 48)
    } else {
        moved(base, 10 * i, 0, 8 * i)
    }
}

/// The gates of a D latch, all but the RS latch.
pub open spec fn d_gates(base: Pos) -> Seq<Step> {
    nor_steps(d_gate(base, 0), 1) + nor_steps(d_gate(base, 1), 1) + nor_steps(d_gate(base, 2), 1)
        + nor_steps(d_gate(base, 3), 2) + nor_steps(d_gate(base, 4), 2)
}

/// The cells with a gate's torch dark, if it is there.
pub open spec fn darkened(cells: Map<Pos, Block>, torch: Pos) -> Map<Pos, Block> {
    if block_at(cells, torch) is WallTorch {
        cells.insert(torch, Block::WallTorch { facing: Dir::South, lit: false })
    } else {
        cells
    }
}

/// The gates and the RS latch stand, and the set and reset gates are at rest.
#[verifier::opaque]
pub open spec fn d_stamped(cells: Map<Pos, Block>, base: Pos) -> (Map<Pos, Block>, Option<Seq<char>>) {
    let five = built(cells, d_gates(base));
    if five.1 is Some {
        five
    } else {
        let all = latch_built(five.0, d_gate(base, 5));
        if all.1 is Some {
            all
        } else {
            (
                darkened(
                    darkened(all.0, moved(d_gate(base, 3), 0, 0, 1)),
                    moved(d_gate(base, 4), 0, 0, 1),
                ),
                None,
            )
        }
    }
}

/// `p` is set aside for `net`, unless another has it.
pub open spec fn set_aside(b: Board, p: Pos, net: NetId) -> Board {
    Board {
        reserved: if b.reserved.contains_key(p) {
            b.reserved
        } else {
            b.reserved.insert(p, net)
        },
        ..b
    }
}

/// A port's target, the cell above it and the cell under it are set aside.
pub open spec fn port_kept(b: Board, t: Pos, net: NetId) -> Board {
    set_aside(set_aside(set_aside(claimed_by(b, t, net), t, net), above(t), net), below(t), net)
}

/// The feeds that the ports lead to.
pub open spec fn d_ports(base: Pos) -> DLatchPorts {
    let latch = d_gate(base, 5);
    DLatchPorts {
        d: moved(base, 0, 1, -8),
        en: moved(base, 9, 1, -8),
        d_a: nor_feeds(d_gate(base, 2), 1)[0],
        d_b: nor_feeds(d_gate(base, 4), 2)[0],
        en_a: nor_feeds(d_gate(base, 0), 1)[0],
        en_b: nor_feeds(d_gate(base, 1), 1)[0],
        q: nor_out(latch_b(latch)),
        q_not: nor_out(latch),
        clr: moved(base, 18, 1, -8),
        set_feed: nor_feeds(latch, 2)[1],
        reset_feed: nor_feeds(latch_b(latch), 3)[1],
        not_e_r: nor_out(d_gate(base, 1)),
        r_out: nor_out(d_gate(base, 4)),
    }
}

/// The clear feed of the RS latch inside.
pub open spec fn d_clear(base: Pos) -> Pos {
    nor_feeds(latch_b(d_gate(base, 5)), 3)[2]
}

/// Every port target is set aside before any routing.
#[verifier::opaque]
pub open spec fn d_board(cells: Map<Pos, Block>, base: Pos) -> Board {
    let p = d_ports(base);
    port_kept(
        port_kept(
            port_kept(port_kept(port_kept(board_from(cells), p.d_a, 6), p.d_b, 9), p.en_a, 7),
            p.en_b,
            10,
        ),
        d_clear(base),
        8,
    )
}

pub open spec fn d_bounds(base: Pos) -> (Pos, Pos) {
    (moved(base, -40, -30, -40), moved(base, 140, 40, 112))
}

pub open spec fn wire_prefix(net: NetId) -> Seq<char> {
    "d-latch wire "@ + decimal(net as nat) + ": "@
}

pub open spec fn port_prefix(net: NetId, to: Pos) -> Seq<char> {
    "d-latch port net "@ + decimal(net as nat) + " -> "@ + pos_label(to) + ": "@
}

/// One wire between two gates.
pub open spec fn d_wire(t: Tuning, w: Works, base: Pos, net: NetId, from: Pos, to: Pos) -> Works {
    leg(t, w, d_bounds(base), net, from, to, 0, wire_prefix(net))
}

/// The wires between the gates.
#[verifier::opaque]
pub open spec fn d_wires(t: Tuning, w: Works, base: Pos) -> Works {
    let p = d_ports(base);
    let s = nor_feeds(d_gate(base, 3), 2);
    let w1 = d_wire(t, w, base, 1, nor_out(d_gate(base, 2)), s[0]);
    let w2 = d_wire(t, w1, base, 2, nor_out(d_gate(base, 0)), s[1]);
    let w3 = d_wire(t, w2, base, 3, nor_out(d_gate(base, 1)), nor_feeds(d_gate(base, 4), 2)[1]);
    let w4 = d_wire(t, w3, base, 4, nor_out(d_gate(base, 3)), p.set_feed);
    d_wire(t, w4, base, 5, nor_out(d_gate(base, 4)), p.reset_feed)
}

/// The pad of a port at column `9 * i`: where it is entered, a repeater if it
/// refreshes, and the hub that its legs leave from.
pub open spec fn pad_steps(base: Pos, i: int, refresh: bool) -> Seq<Step> {
    let a = moved(base, 9 * i, 1, -8);
    let b = moved(base, 9 * i, 1, -7);
    let c = moved(base, 9 * i, 1, -6);
    if refresh {
        seq![
            Step::Put(below(a), Block::Solid(Material::Gate)),
            Step::Put(a, dust()),
            Step::Put(below(b), Block::Solid(Material::Gate)),
            Step::Put(b, repeater(Dir::North)),
            Step::Put(below(c), Block::Solid(Material::Gate)),
            Step::Put(c, dust()),
        ]
    } else {
        seq![
            Step::Put(below(a), Block::Solid(Material::Gate)),
            Step::Put(a, dust()),
            Step::Put(below(b), Block::Solid(Material::Gate)),
            Step::Put(b, dust()),
        ]
    }
}

/// The pads of the three ports. D is refreshed, the enable is not - which also makes
/// the enable strictly faster than D: it closes the latch before new data arrives.
pub open spec fn d_pads(base: Pos) -> Seq<Step> {
    pad_steps(base, 0, true) + pad_steps(base, 1, false) + pad_steps(base, 2, false)
}

/// One leg from a port's hub. The decay is overstated, so that repeaters come early
/// and the leg lands strong.
pub open spec fn d_fan(t: Tuning, w: Works, base: Pos, net: NetId, from: Pos, to: Pos) -> Works {
    leg(t, w, d_bounds(base), net, from, to, 4, port_prefix(net, to))
}

/// The legs from the ports to the gates.
#[verifier::opaque]
pub open spec fn d_fans(t: Tuning, w: Works, base: Pos) -> Works {
    let p = d_ports(base);
    let d_hub = moved(base, 0, 1, -6);
    let en_hub = moved(base, 9, 1, -7);
    let clr_hub = moved(base, 18, 1, -7);
    let w1 = d_fan(t, w, base, 7, en_hub, p.en_a);
    let w2 = d_fan(t, w1, base, 10, en_hub, p.en_b);
    let w3 = d_fan(t, w2, base, 6, d_hub, p.d_a);
    let w4 = d_fan(t, w3, base, 9, d_hub, p.d_b);
    d_fan(t, w4, base, 8, clr_hub, d_clear(base))
}

/// The construction goes on in the works' cells.
pub open spec fn works_on(w: Works, steps: Seq<Step>) -> Works {
    if w.stop is Some {
        w
    } else {
        let r = built(w.cells, steps);
        Works { board: w.board, cells: r.0, stop: r.1 }
    }
}

/// A D latch: its gates, the wires between them, and its ports.
#[verifier::opaque]
pub open spec fn d_latch_built(t: Tuning, cells: Map<Pos, Block>, base: Pos) -> (
    Map<Pos, Block>,
    Option<Seq<char>>,
) {
    let stamped = d_stamped(cells, base);
    if stamped.1 is Some {
        stamped
    } else {
        let start = Works { board: d_board(stamped.0, base), cells: stamped.0, stop: None };
        let done = d_fans(t, works_on(d_wires(t, start, base), d_pads(base)), base);
        (done.cells, done.stop)
    }
}

fn keep_port(r: &mut Router, t: Pos, net: NetId)
    requires
        in_world(t),
    ensures
        final(r)@ == port_kept(old(r)@, t, net),
        final(r).max_expansions == old(r).max_expansions,
        final(r).tuning == old(r).tuning,
        board_ok(old(r)@) ==> board_ok(final(r)@),
{
    r.claim(t, net);
    r.reserve(t, net);
    r.reserve((t.0, t.1 + 1, t.2), net);
    r.reserve((t.0, t.1 - 1, t.2), net);
}

fn darken(g: &mut Grid, torch: Pos)
    ensures
        final(g)@ == darkened(old(g)@, torch),
{
    match g.get(torch) {
        Block::WallTorch { .. } => {
            g.force(torch, Block::WallTorch { facing: Dir::South, lit: false });
        },
        _ => {},
    }
}

proof fn lemma_gates_within(base: Pos, n: int)
    requires
        within(base, n - 150),
        n <= 0x5000_0000,
    ensures
        puts_within(d_gates(base), n),
{
    let g0 = nor_steps(d_gate(base, 0), 1);
    let g1 = nor_steps(d_gate(base, 1), 1);
    let g2 = nor_steps(d_gate(base, 2), 1);
    let g3 = nor_steps(d_gate(base, 3), 2);
    let g4 = nor_steps(d_gate(base, 4), 2);
    lemma_nor_within(d_gate(base, 0), 1, n);
    lemma_nor_within(d_gate(base, 1), 1, n);
    lemma_nor_within(d_gate(base, 2), 1, n);
    lemma_nor_within(d_gate(base, 3), 2, n);
    lemma_nor_within(d_gate(base, 4), 2, n);
    assert(puts_within(g0, n));
    assert(puts_within(g1, n));
    assert(puts_within(g2, n));
    assert(puts_within(g3, n));
    assert(puts_within(g4, n));
    lemma_puts_join(g0, g1, n);
    lemma_puts_join(g0 + g1, g2, n);
    lemma_puts_join(g0 + g1 + g2, g3, n);
    lemma_puts_join(g0 + g1 + g2 + g3, g4, n);
}

/// Stamp the gates of a D latch.
fn d_stamp_gates(g: &mut Grid, base: Pos) -> (r: Result<(), String>)
    requires
        room_for(base, 0x1000_1000),
    ensures
        built(old(g)@, d_gates(base)) == (final(g)@, refusal(r)),
{
    let (x, y, z) = base;
    let ghost start = g@;
    let ghost g0 = nor_steps(d_gate(base, 0), 1);
    let ghost g1 = nor_steps(d_gate(base, 1), 1);
    let ghost g2 = nor_steps(d_gate(base, 2), 1);
    let ghost g3 = nor_steps(d_gate(base, 3), 2);
    let ghost g4 = nor_steps(d_gate(base, 4), 2);
    proof {
        lemma_built_join(start, g0 + g1 + g2 + g3, g4);
        lemma_built_join(start, g0 + g1 + g2, g3);
        lemma_built_join(start, g0 + g1, g2);
        lemma_built_join(start, g0, g1);
    }
    stamp_nor(g, (x, y, z), 1)?;
    stamp_nor(g, (x + 10, y, z + 8), 1)?;
    stamp_nor(g, (x + 20, y, z + 16), 1)?;
    stamp_nor(g, (x + 30, y, z + 24), 2)?;
    stamp_nor(g, (x + 40, y, z + 32), 2)?;
    Ok(())
}

/// Stamp the gates of a D latch and its RS latch.
fn d_stamp(g: &mut Grid, base: Pos, Ghost(n): Ghost<int>) -> (r: Result<(), String>)
    requires
        room_for(base, n),
        spans(old(g)@, n),
    ensures
        d_stamped(old(g)@, base) == (final(g)@, refusal(r)),
        spans(final(g)@, n),
{
    let (x, y, z) = base;
    proof {
        reveal(d_stamped);
        lemma_gates_within(base, n);
        lemma_built_spans(g@, d_gates(base), n);
    }
    d_stamp_gates(g, base)?;
    proof {
        lemma_latch_spans(g@, d_gate(base, 5), n);
    }
    stamp_rs_latch_at(g, (x + 55, y, z + 48))?;
    // At rest the enable is low, so !E is high and both S = NOR(!D,!E) and
    // R = NOR(D,!E) are low. Cells are stamped with their torch lit, which would
    // have S and R *both* asserting - telling the latch to set and reset at
    // once. Start them where the logic says they belong.
    darken(g, (x + 30, y, z + 25));
    darken(g, (x + 40, y, z + 33));
    Ok(())
}

/// Stamp an RS latch whose ports are known from where it stands.
fn stamp_rs_latch_at(g: &mut Grid, base: Pos) -> (r: Result<(), String>)
    requires
        within(base, 0x1000_1000),
    ensures
        latch_built(old(g)@, base) == (final(g)@, refusal(r)),
{
    match stamp_rs_latch(g, base) {
        Ok(_) => Ok(()),
        Err(e) => Err(e),
    }
}

fn wire_message(net: NetId) -> (s: String)
    ensures
        s@ == wire_prefix(net),
{
    let mut s = String::from_str("d-latch wire ");
    push_decimal(&mut s, net as u64);
    s.append(": ");
    s
}

fn port_message(net: NetId, to: Pos) -> (s: String)
    ensures
        s@ == port_prefix(net, to),
{
    let mut s = String::from_str("d-latch port net ");
    push_decimal(&mut s, net as u64);
    s.append(" -> ");
    push_pos(&mut s, to);
    s.append(": ");
    s
}

/// A failed leg fails the rest.
proof fn lemma_wires_stop(t: Tuning, w: Works, base: Pos)
    requires
        w.stop is Some,
    ensures
        d_wires(t, w, base) == w,
        d_fans(t, w, base) == w,
        works_on(w, d_pads(base)) == w,
{
    reveal(leg);
    reveal(d_wires);
    reveal(d_fans);
}

/// Wire one gate of a D latch to another.
fn d_lay_wire(
    g: &mut Grid,
    r: &mut Router,
    base: Pos,
    net: NetId,
    from: Pos,
    to: Pos,
    Ghost(w): Ghost<Works>,
    Ghost(t): Ghost<Tuning>,
    Ghost(n): Ghost<int>,
) -> (res: Result<(), String>)
    requires
        at_work(w, *old(r), *old(g), t, n),
        tuning_ok(t),
        room_for(base, n),
        in_world(from),
        in_world(to),
    ensures
        ({
            let after = d_wire(t, w, base, net, from, to);
            &&& spans(after.cells, n)
            &&& final(g)@ == after.cells
            &&& match res {
                Ok(_) => at_work(after, *final(r), *final(g), t, n),
                Err(m) => after.stop == Some(m@),
            }
        }),
{
    let (x, y, z) = base;
    let bounds: (Pos, Pos) = ((x - 40, y - 30, z - 40), (x + 140, y + 40, z + 112));
    lay_leg(g, r, bounds, net, from, to, 0, wire_message(net), Ghost(w), Ghost(t), Ghost(n))
}

/// Lay one leg from a port of a D latch.
fn d_lay_fan(
    g: &mut Grid,
    r: &mut Router,
    base: Pos,
    net: NetId,
    from: Pos,
    to: Pos,
    Ghost(w): Ghost<Works>,
    Ghost(t): Ghost<Tuning>,
    Ghost(n): Ghost<int>,
) -> (res: Result<(), String>)
    requires
        at_work(w, *old(r), *old(g), t, n),
        tuning_ok(t),
        room_for(base, n),
        in_world(from),
        in_world(to),
    ensures
        ({
            let after = d_fan(t, w, base, net, from, to);
            &&& spans(after.cells, n)
            &&& final(g)@ == after.cells
            &&& match res {
                Ok(_) => at_work(after, *final(r), *final(g), t, n),
                Err(m) => after.stop == Some(m@),
            }
        }),
{
    let (x, y, z) = base;
    let bounds: (Pos, Pos) = ((x - 40, y - 30, z - 40), (x + 140, y + 40, z + 112));
    lay_leg(g, r, bounds, net, from, to, 4, port_message(net, to), Ghost(w), Ghost(t), Ghost(n))
}

/// Lay the wires between the gates.
fn d_lay_wires(g: &mut Grid, r: &mut Router, base: Pos, Ghost(w): Ghost<Works>, Ghost(t): Ghost<Tuning>, Ghost(n): Ghost<int>) -> (res: Result<(), String>)
    requires
        at_work(w, *old(r), *old(g), t, n),
        tuning_ok(t),
        room_for(base, n),
    ensures
        ({
            let after = d_wires(t, w, base);
            &&& spans(after.cells, n)
            &&& final(g)@ == after.cells
            &&& match res {
                Ok(_) => at_work(after, *final(r), *final(g), t, n),
                Err(m) => after.stop == Some(m@),
            }
        }),
{
    let (x, y, z) = base;
    proof {
        reveal(d_wires);
    }
    let ghost s = nor_feeds(d_gate(base, 3), 2);
    let ghost p = d_ports(base);
    let ghost w1 = d_wire(t, w, base, 1, nor_out(d_gate(base, 2)), s[0]);
    let ghost w2 = d_wire(t, w1, base, 2, nor_out(d_gate(base, 0)), s[1]);
    let ghost w3 = d_wire(t, w2, base, 3, nor_out(d_gate(base, 1)), nor_feeds(d_gate(base, 4), 2)[1]);
    let ghost w4 = d_wire(t, w3, base, 4, nor_out(d_gate(base, 3)), p.set_feed);
    proof {
        lemma_legs_stop();
    }
    d_lay_wire(g, r, base, 1, (x + 20, y, z + 18), (x + 30, y + 1, z + 22), Ghost(w), Ghost(t), Ghost(n))?;
    d_lay_wire(g, r, base, 2, (x, y, z + 2), (x + 32, y + 1, z + 22), Ghost(w1), Ghost(t), Ghost(n))?;
    d_lay_wire(g, r, base, 3, (x + 10, y, z + 10), (x + 42, y + 1, z + 30), Ghost(w2), Ghost(t), Ghost(n))?;
    d_lay_wire(g, r, base, 4, (x + 30, y, z + 26), (x + 57, y + 1, z + 46), Ghost(w3), Ghost(t), Ghost(n))?;
    d_lay_wire(g, r, base, 5, (x + 40, y, z + 34), (x + 63, y + 1, z + 54), Ghost(w4), Ghost(t), Ghost(n))
}

/// Lay the pad of a port.
fn pad(g: &mut Grid, base: Pos, i: i32, refresh: bool, Ghost(n): Ghost<int>) -> (r: Result<(), String>)
    requires
        room_for(base, n),
        0 <= i <= 2,
        spans(old(g)@, n),
    ensures
        built(old(g)@, pad_steps(base, i as int, refresh)) == (final(g)@, refusal(r)),
        spans(final(g)@, n),
{
    let (x, y, z) = base;
    let ghost start = g@;
    let ghost plan = pad_steps(base, i as int, refresh);
    proof {
        assert(plan.take(0) =~= Seq::empty());
        assert(puts_within(plan, n));
        lemma_built_spans(start, plan, n);
    }
    let x0: i32 = x + i * 9;
    put(g, (x0, y, z - 8), Block::Solid(Material::Gate), Ghost(start), Ghost(plan), Ghost(0))?;
    put(g, (x0, y + 1, z - 8), Block::Dust { power: 0 }, Ghost(start), Ghost(plan), Ghost(1))?;
    put(g, (x0, y, z - 7), Block::Solid(Material::Gate), Ghost(start), Ghost(plan), Ghost(2))?;
    if refresh {
        put(
            g,
            (x0, y + 1, z - 7),
            Block::Repeater { facing: Dir::North, delay: 1, powered: false },
            Ghost(start),
            Ghost(plan),
            Ghost(3),
        )?;
        put(g, (x0, y, z - 6), Block::Solid(Material::Gate), Ghost(start), Ghost(plan), Ghost(4))?;
        put(g, (x0, y + 1, z - 6), Block::Dust { power: 0 }, Ghost(start), Ghost(plan), Ghost(5))?;
        assert(plan.take(6) =~= plan);
    } else {
        put(g, (x0, y + 1, z - 7), Block::Dust { power: 0 }, Ghost(start), Ghost(plan), Ghost(3))?;
        assert(plan.take(4) =~= plan);
    }
    Ok(())
}

/// Lay the legs from the ports.
fn d_lay_fans(g: &mut Grid, r: &mut Router, base: Pos, Ghost(w): Ghost<Works>, Ghost(t): Ghost<Tuning>, Ghost(n): Ghost<int>) -> (res: Result<(), String>)
    requires
        at_work(w, *old(r), *old(g), t, n),
        tuning_ok(t),
        room_for(base, n),
    ensures
        ({
            let after = d_fans(t, w, base);
            &&& spans(after.cells, n)
            &&& final(g)@ == after.cells
            &&& match res {
                Ok(_) => at_work(after, *final(r), *final(g), t, n),
                Err(m) => after.stop == Some(m@),
            }
        }),
{
    let (x, y, z) = base;
    proof {
        reveal(d_fans);
    }
    let ghost p = d_ports(base);
    let d_hub: Pos = (x, y + 1, z - 6);
    let en_hub: Pos = (x + 9, y + 1, z - 7);
    let clr_hub: Pos = (x + 18, y + 1, z - 7);
    let ghost w1 = d_fan(t, w, base, 7, en_hub, p.en_a);
    let ghost w2 = d_fan(t, w1, base, 10, en_hub, p.en_b);
    let ghost w3 = d_fan(t, w2, base, 6, d_hub, p.d_a);
    let ghost w4 = d_fan(t, w3, base, 9, d_hub, p.d_b);
    proof {
        lemma_legs_stop();
    }
    // Enable first: its hub is one cell from the pad and therefore the most
    // easily walled in.
    d_lay_fan(g, r, base, 7, en_hub, (x, y + 1, z - 2), Ghost(w), Ghost(t), Ghost(n))?;
    d_lay_fan(g, r, base, 10, en_hub, (x + 10, y + 1, z + 6), Ghost(w1), Ghost(t), Ghost(n))?;
    d_lay_fan(g, r, base, 6, d_hub, (x + 20, y + 1, z + 14), Ghost(w2), Ghost(t), Ghost(n))?;
    d_lay_fan(g, r, base, 9, d_hub, (x + 40, y + 1, z + 30), Ghost(w3), Ghost(t), Ghost(n))?;
    d_lay_fan(g, r, base, 8, clr_hub, (x + 65, y + 1, z + 54), Ghost(w4), Ghost(t), Ghost(n))
}

proof fn lemma_pads_join(w: Works, base: Pos)
    requires
        w.stop is None,
    ensures
        ({
            let a = built(w.cells, pad_steps(base, 0, true));
            let b = built(a.0, pad_steps(base, 1, false));
            let c = built(b.0, pad_steps(base, 2, false));
            let all = works_on(w, d_pads(base));
            &&& a.1 is Some ==> all == (Works { cells: a.0, stop: a.1, ..w })
            &&& a.1 is None && b.1 is Some ==> all == (Works { cells: b.0, stop: b.1, ..w })
            &&& a.1 is None && b.1 is None ==> all == (Works { cells: c.0, stop: c.1, ..w })
        }),
{
    let p0 = pad_steps(base, 0, true);
    let p1 = pad_steps(base, 1, false);
    let p2 = pad_steps(base, 2, false);
    lemma_built_join(w.cells, p0 + p1, p2);
    lemma_built_join(w.cells, p0, p1);
}

/// Lay the pads of the ports, and the legs from them.
fn d_lay_ports(g: &mut Grid, r: &mut Router, base: Pos, Ghost(w): Ghost<Works>, Ghost(t): Ghost<Tuning>, Ghost(n): Ghost<int>) -> (res: Result<(), String>)
    requires
        at_work(w, *old(r), *old(g), t, n),
        tuning_ok(t),
        room_for(base, n),
    ensures
        ({
            let after = d_fans(t, works_on(w, d_pads(base)), base);
            &&& spans(final(g)@, n)
            &&& final(g)@ == after.cells
            &&& after.stop == refusal(res)
        }),
{
    let ghost padded = works_on(w, d_pads(base));
    proof {
        lemma_pads_join(w, base);
        if padded.stop is Some {
            lemma_wires_stop(t, padded, base);
        }
    }
    pad(g, base, 0, true, Ghost(n))?;
    pad(g, base, 1, false, Ghost(n))?;
    pad(g, base, 2, false, Ghost(n))?;
    assert(at_work(padded, *r, *g, t, n));
    d_lay_fans(g, r, base, Ghost(padded), Ghost(t), Ghost(n))
}

/// A gated D latch: `Q` follows `D` while `enable` is high, and holds when it
/// falls. The storage element of a flip-flop.
///
/// Built as `S = D AND E`, `R = !D AND E` feeding an RS latch, with
/// the ANDs expressed in NOR form: `S = NOR(!D, !E)` and `R = NOR(D, !E)`.
///
/// The gates are hand-placed and the router wires them: the only part that
/// genuinely cannot be routed is the latch's feedback cycle, because levelisation
/// needs a DAG.
///
/// Each logical input gets one pad on the north face, in clear ground, and the
/// router carries it to the internal gates that need it. Callers then land flat on
/// an edge and never enter the body. Each leg is its own net: sharing one net id
/// between two legs would let the router satisfy the second by reusing the first
/// one's path, which leaves the second gate connected to nothing.
pub fn stamp_d_latch(g: &mut Grid, base: Pos) -> (r: Result<DLatchPorts, String>)
    requires
        well_inside(base),
        spans(old(g)@, 0x1000_0000),
    ensures
        d_latch_built(usual_tuning(), old(g)@, base) == (final(g)@, refusal(r)),
        spans(final(g)@, 0x1000_0000),
        match r {
            Ok(p) => p == d_ports(base),
            Err(_) => true,
        },
{
    d_latch_with(g, base, Tuning::usual(), Ghost(0x1000_0000))
}

/// A router for a D latch whose gates stand in the grid.
fn d_router(g: &Grid, base: Pos, t: Tuning, Ghost(n): Ghost<int>) -> (router: Router)
    requires
        spans(g@, n),
        room_for(base, n),
    ensures
        router@ == d_board(g@, base),
        router.tuning == t,
        router.max_expansions == 250_000,
        board_ok(router@),
{
    let (x, y, z) = base;
    proof {
        reveal(d_board);
    }
    assert forall|p: Pos| #[trigger] g@.contains_key(p) implies crate::route::roomy(p) by {
        assert(within(p, n));
    }
    let mut router = Router::from_grid(g);
    router.tuning = t;
    // Reserve every port target, the cell above it, *and the cell under it*,
    // before any routing at all. A target's support is as much a part of the target
    // as the target is: the search exempts a target from its own support check, so
    // an earlier route that parks a repeater underneath one leaves dust resting on
    // nothing.
    keep_port(&mut router, (x + 20, y + 1, z + 14), 6);
    keep_port(&mut router, (x + 40, y + 1, z + 30), 9);
    keep_port(&mut router, (x, y + 1, z - 2), 7);
    keep_port(&mut router, (x + 10, y + 1, z + 6), 10);
    keep_port(&mut router, (x + 65, y + 1, z + 54), 8);
    router
}

/// The ports of a D latch at `base`.
fn ports_at(base: Pos) -> (p: DLatchPorts)
    requires
        room_for(base, 0x1000_1000),
    ensures
        p == d_ports(base),
{
    let (x, y, z) = base;
    DLatchPorts {
        d: (x, y + 1, z - 8),
        en: (x + 9, y + 1, z - 8),
        d_a: (x + 20, y + 1, z + 14),
        d_b: (x + 40, y + 1, z + 30),
        en_a: (x, y + 1, z - 2),
        en_b: (x + 10, y + 1, z + 6),
        q: (x + 61, y, z + 58),
        q_not: (x + 55, y, z + 50),
        clr: (x + 18, y + 1, z - 8),
        set_feed: (x + 57, y + 1, z + 46),
        reset_feed: (x + 63, y + 1, z + 54),
        not_e_r: (x + 10, y, z + 10),
        r_out: (x + 40, y, z + 34),
    }
}

/// As [`stamp_d_latch`], with the router tuned otherwise.
pub(crate) fn d_latch_with(g: &mut Grid, base: Pos, t: Tuning, Ghost(n): Ghost<int>) -> (r: Result<DLatchPorts, String>)
    requires
        room_for(base, n),
        spans(old(g)@, n),
        tuning_ok(t),
    ensures
        d_latch_built(t, old(g)@, base) == (final(g)@, refusal(r)),
        spans(final(g)@, n),
        match r {
            Ok(p) => p == d_ports(base),
            Err(_) => true,
        },
{
    proof {
        reveal(d_latch_built);
    }
    d_stamp(g, base, Ghost(n))?;
    let ghost stamped = g@;
    let mut router = d_router(g, base, t, Ghost(n));
    let ghost start = Works { board: d_board(stamped, base), cells: stamped, stop: None };
    let ghost wires = d_wires(t, start, base);
    assert(at_work(start, router, *g, t, n));
    match d_lay_wires(g, &mut router, base, Ghost(start), Ghost(t), Ghost(n)) {
        Ok(_) => {},
        Err(e) => {
            proof {
                lemma_wires_stop(t, wires, base);
            }
            return Err(e);
        },
    }
    d_lay_ports(g, &mut router, base, Ghost(wires), Ghost(t), Ghost(n))?;
    Ok(ports_at(base))
}

// --- the flip-flop ---------------------------------------------------------------------

/// The ports of a flip-flop.
///
/// A master-slave D flip-flop: `Q` takes the value of `D` on the clock's
/// falling edge, and holds it for the rest of the cycle.
///
/// # Two-phase clock
///
/// The slave's enable is an **input**, not something each flip-flop derives by
/// inverting the clock. The cost is that the two phases must not overlap: if the
/// master and slave are transparent at the same instant, data races straight through
/// both latches instead of being held for an edge. Generating them from one global
/// source is what keeps that guarantee.
pub struct DffPorts {
    pub d_feeds: Vec<Pos>,
    /// Master enable: transparent while this is high.
    pub clk_feeds: Vec<Pos>,
    /// Slave enable, the opposite clock phase. Supplied externally rather than
    /// inverted inside each flip-flop - see the struct docs.
    pub clk_n_feeds: Vec<Pos>,
    /// Asynchronous clear, one feed per internal latch. Both must be driven:
    /// clearing only the slave leaves the master holding a stale value that the
    /// next clock edge would shift straight back in.
    pub clr_feeds: Vec<Pos>,
    pub q: Pos,
    /// The master latch's output, feeding the slave's D.
    pub master_q: Pos,
    /// Where that output lands on the slave. Exposed to measure the *arriving
    /// strength*, not just whether it arrives.
    pub slave_d_feeds: Vec<Pos>,
    /// The slave's `!E` inverter output and its reset gate output.
    pub slave_not_e_r: Pos,
    pub slave_r_out: Pos,
    /// The same two nodes in the master.
    pub master_not_e_r: Pos,
    pub master_r_out: Pos,
}

/// `z` is the furthest that any cell reaches along Z.
pub open spec fn is_far_z(cells: Map<Pos, Block>, z: i32) -> bool {
    &&& exists|p: Pos| #[trigger] cells.contains_key(p) && p.2 == z
    &&& forall|p: Pos| #[trigger] cells.contains_key(p) ==> p.2 <= z
}

/// The furthest that any cell reaches along Z; `otherwise` if there is none.
pub open spec fn far_z(cells: Map<Pos, Block>, otherwise: i32) -> i32 {
    if cells == Map::<Pos, Block>::empty() {
        otherwise
    } else {
        choose|z: i32| is_far_z(cells, z)
    }
}

fn end_z(g: &Grid, otherwise: i32) -> (z: i32)
    ensures
        z == far_z(g@, otherwise),
        forall|n: int| #[trigger] spans(g@, n) && -n <= otherwise <= n ==> -n <= z <= n,
{
    match g.bounds() {
        Some((_, hi)) => {
            proof {
                assert(is_far_z(g@, hi.2));
                let z = choose|z: i32| is_far_z(g@, z);
                assert(is_far_z(g@, z));
                let p = choose|p: Pos| #[trigger] g@.contains_key(p) && p.2 == hi.2;
                let q = choose|q: Pos| #[trigger] g@.contains_key(q) && q.2 == z;
                assert(g@.contains_key(p) && g@.contains_key(q));
                assert(z == hi.2);
                assert(g@ != Map::<Pos, Block>::empty());
            }
            hi.2
        },
        None => otherwise,
    }
}

/// Where the slave latch stands: behind everything else. Kept tight on purpose,
/// because the link from the master to it is what a longer way would disturb.
pub open spec fn slave_base(cells: Map<Pos, Block>, base: Pos) -> Pos {
    (base.0, base.1, (far_z(cells, base.2) + 14) as i32)
}

pub open spec fn dff_bounds(cells: Map<Pos, Block>, base: Pos) -> (Pos, Pos) {
    (
        moved(base, -60, -40, -60),
        ((base.0 + 200) as i32, (base.1 + 60) as i32, (far_z(cells, base.2) + 60) as i32),
    )
}

/// Where the slave of a flip-flop at `base` stands.
pub open spec fn dff_slave(t: Tuning, cells: Map<Pos, Block>, base: Pos) -> Pos {
    slave_base(d_latch_built(t, cells, base).0, base)
}

/// A flip-flop: two D latches in series, the master enabled while the clock is
/// high and the slave while it is low. Only one is ever transparent.
pub open spec fn dff_built(t: Tuning, cells: Map<Pos, Block>, base: Pos) -> (
    Map<Pos, Block>,
    Option<Seq<char>>,
) {
    let master = d_latch_built(t, cells, base);
    if master.1 is Some {
        master
    } else {
        let at = dff_slave(t, cells, base);
        let slave = d_latch_built(t, master.0, at);
        if slave.1 is Some {
            slave
        } else {
            let linked = leg(
                t,
                Works { board: board_from(slave.0), cells: slave.0, stop: None },
                dff_bounds(slave.0, base),
                11,
                d_ports(base).q,
                d_ports(at).d,
                0,
                "dff master->slave: "@,
            );
            (linked.cells, linked.stop)
        }
    }
}

/// The ports of a flip-flop whose master stands at `base` and whose slave stands at
/// `slave`.
pub open spec fn dff_ports(p: DffPorts, base: Pos, slave: Pos) -> bool {
    let m = d_ports(base);
    let s = d_ports(slave);
    &&& p.d_feeds@ == seq![m.d]
    &&& p.clk_feeds@ == seq![m.en]
    &&& p.clk_n_feeds@ == seq![s.en]
    &&& p.clr_feeds@ == seq![m.clr, s.clr]
    &&& p.q == s.q
    &&& p.master_q == m.q
    &&& p.slave_d_feeds@ == seq![s.d]
    &&& p.slave_not_e_r == s.not_e_r
    &&& p.slave_r_out == s.r_out
    &&& p.master_not_e_r == m.not_e_r
    &&& p.master_r_out == m.r_out
}

fn one(p: Pos) -> (v: Vec<Pos>)
    ensures
        v@ == seq![p],
{
    let mut v: Vec<Pos> = Vec::new();
    v.push(p);
    assert(v@ =~= seq![p]);
    v
}

/// Stamp a flip-flop: two D latches, linked by the router.
///
/// The second latch's place is measured rather than guessed: a caller cannot see how
/// much room a macro took.
pub fn stamp_dff(g: &mut Grid, base: Pos) -> (r: Result<DffPorts, String>)
    requires
        well_inside(base),
        spans(old(g)@, 0x0fff_2000),
    ensures
        dff_built(usual_tuning(), old(g)@, base) == (final(g)@, refusal(r)),
        match r {
            Ok(p) => dff_ports(p, base, dff_slave(usual_tuning(), old(g)@, base)),
            Err(_) => true,
        },
        spans(final(g)@, 0x0fff_2100),
{
    dff_with(g, base, Tuning::usual(), Ghost(0x0fff_2000))
}

/// As [`stamp_dff`], with the router tuned otherwise.
pub(crate) fn dff_with(g: &mut Grid, base: Pos, t: Tuning, Ghost(n): Ghost<int>) -> (r: Result<DffPorts, String>)
    requires
        room_for(base, n),
        n <= 0x1000_0000,
        spans(old(g)@, n),
        tuning_ok(t),
    ensures
        dff_built(t, old(g)@, base) == (final(g)@, refusal(r)),
        match r {
            Ok(p) => dff_ports(p, base, dff_slave(t, old(g)@, base)) && within(
                dff_slave(t, old(g)@, base),
                n + 14,
            ),
            Err(_) => true,
        },
        spans(final(g)@, n + 256),
{
    let (x, y, z) = base;
    let ghost start = g@;
    let m = d_latch_with(g, base, t, Ghost(n))?;
    let far: i32 = end_z(g, z);
    let at: Pos = (x, y, far + 14);
    assert(at == dff_slave(t, start, base));
    assert(spans(g@, n + 164));
    let s = d_latch_with(g, at, t, Ghost(n + 164))?;
    assert forall|p: Pos| #[trigger] g@.contains_key(p) implies crate::route::roomy(p) by {
        assert(within(p, n + 164));
    }
    let mut router = Router::from_grid(g);
    router.tuning = t;
    let far: i32 = end_z(g, z);
    let bounds: (Pos, Pos) = ((x - 60, y - 40, z - 60), (x + 200, y + 60, far + 60));
    let ghost w = Works { board: board_from(g@), cells: g@, stop: None };
    assert(at_work(w, router, *g, t, n + 256)) by {
        assert(spans(g@, n + 256));
    }
    // One link, not two: both latches expose boundary ports and fan out internally,
    // so the master's Q has a single destination on the slave's north face.
    lay_leg(
        g,
        &mut router,
        bounds,
        11,
        m.q,
        s.d,
        0,
        String::from_str("dff master->slave: "),
        Ghost(w),
        Ghost(t),
        Ghost(n + 256),
    )?;
    let mut clr_feeds: Vec<Pos> = Vec::new();
    clr_feeds.push(m.clr);
    clr_feeds.push(s.clr);
    assert(clr_feeds@ =~= seq![m.clr, s.clr]);
    Ok(
        DffPorts {
            d_feeds: one(m.d),
            clk_feeds: one(m.en),
            clk_n_feeds: one(s.en),
            clr_feeds,
            q: s.q,
            master_q: m.q,
            slave_d_feeds: one(s.d),
            slave_not_e_r: s.not_e_r,
            slave_r_out: s.r_out,
            master_not_e_r: m.not_e_r,
            master_r_out: m.r_out,
        },
    )
}

} // verus!
