//! Getting ready to route: lamps, output spines, and the approach lanes of gate inputs.
use crate::deep::{lemma_built_spans, puts_within, spans, within};
use crate::floorplan::{all_within, known, Chart, GATE_Z, LEVEL_H};
use crate::netlist::{gate_operands, Netlist, Sig, Src};
use crate::route::{
    board_ok, claimed_by, free, lemma_claim_still_apart, lemma_still_apart_trans, still_apart,
    Board, NetId, Router, Works,
};
use crate::steps::{built, put, refusal, Step};
use crate::tech::{dust, moved, repeater};
use crate::world::{Block, Dir, Grid, Material, Pos};
use vstd::prelude::*;
use vstd::string::*;

verus! {

/// Length of the private approach lane in front of each gate input.
pub const STUB_LEN: i32 = 4;

/// Length of the output spine trailing each driver. A high-fanout gate would
/// otherwise have to push every branch through the single cell of dust beside
/// its torch, which congests immediately; a spine gives branches several places
/// to leave from.
pub const SPINE_LEN: i32 = 5;

/// Longest an output spine may grow for a high-fanout net.
pub const SPINE_MAX: i32 = 24;

/// How often a driver's output spine is refreshed by a repeater. Refreshing every
/// sixth cell caps the worst-case tap at five blocks of decay whatever the spine's
/// length.
pub const SPINE_REFRESH: i32 = 6;

// --- boxes of reserved cells -------------------------------------------------------------

/// `p` lies in the box.
pub open spec fn boxed(lo: Pos, hi: Pos, p: Pos) -> bool {
    lo.0 <= p.0 <= hi.0 && lo.1 <= p.1 <= hi.1 && lo.2 <= p.2 <= hi.2
}

/// The cells of a box are set aside for `net`, as far as nobody has them.
pub open spec fn box_kept(b: Board, lo: Pos, hi: Pos, net: NetId) -> Board {
    Board {
        reserved: Map::new(
            |p: Pos| b.reserved.contains_key(p) || boxed(lo, hi, p),
            |p: Pos|
                if b.reserved.contains_key(p) {
                    b.reserved[p]
                } else {
                    net
                },
        ),
        ..b
    }
}

/// The cells of a box that come before `(x, y, z)`.
spec fn box_until(lo: Pos, hi: Pos, x: int, y: int, z: int, p: Pos) -> bool {
    boxed(lo, hi, p) && (p.0 < x || (p.0 == x && (p.1 < y || (p.1 == y && p.2 < z))))
}

spec fn kept_until(b: Board, lo: Pos, hi: Pos, net: NetId, x: int, y: int, z: int) -> Map<Pos, NetId> {
    Map::new(
        |p: Pos| b.reserved.contains_key(p) || box_until(lo, hi, x, y, z, p),
        |p: Pos|
            if b.reserved.contains_key(p) {
                b.reserved[p]
            } else {
                net
            },
    )
}

/// Set the cells of a box aside.
pub fn keep_box(r: &mut Router, lo: Pos, hi: Pos, net: NetId)
    requires
        within(lo, 0x1000_0000),
        within(hi, 0x1000_0000),
        lo.0 <= hi.0,
        lo.1 <= hi.1,
        lo.2 <= hi.2,
    ensures
        final(r)@ == box_kept(old(r)@, lo, hi, net),
        final(r).max_expansions == old(r).max_expansions,
        final(r).tuning == old(r).tuning,
{
    let ghost b = r@;
    assert(kept_until(b, lo, hi, net, lo.0 as int, lo.1 as int, lo.2 as int) =~= b.reserved);
    for x in lo.0..hi.0 + 1
        invariant
            within(lo, 0x1000_0000),
            within(hi, 0x1000_0000),
            lo.0 <= hi.0,
            lo.1 <= hi.1,
            lo.2 <= hi.2,
            r@ == (Board { reserved: kept_until(b, lo, hi, net, x as int, lo.1 as int, lo.2 as int), ..b }),
            r.max_expansions == old(r).max_expansions,
            r.tuning == old(r).tuning,
    {
        for y in lo.1..hi.1 + 1
            invariant
                within(lo, 0x1000_0000),
                within(hi, 0x1000_0000),
                lo.0 <= x <= hi.0,
                lo.1 <= hi.1,
                lo.2 <= hi.2,
                r@ == (Board { reserved: kept_until(b, lo, hi, net, x as int, y as int, lo.2 as int), ..b }),
                r.max_expansions == old(r).max_expansions,
                r.tuning == old(r).tuning,
        {
            for z in lo.2..hi.2 + 1
                invariant
                    within(lo, 0x1000_0000),
                    within(hi, 0x1000_0000),
                    lo.0 <= x <= hi.0,
                    lo.1 <= y <= hi.1,
                    lo.2 <= hi.2,
                    r@ == (Board { reserved: kept_until(b, lo, hi, net, x as int, y as int, z as int), ..b }),
                    r.max_expansions == old(r).max_expansions,
                    r.tuning == old(r).tuning,
            {
                r.reserve((x, y, z), net);
                assert(r@.reserved =~= kept_until(b, lo, hi, net, x as int, y as int, z + 1));
            }
            assert(kept_until(b, lo, hi, net, x as int, y as int, hi.2 + 1) =~= kept_until(
                b,
                lo,
                hi,
                net,
                x as int,
                y + 1,
                lo.2 as int,
            ));
        }
        assert(kept_until(b, lo, hi, net, x as int, hi.1 + 1, lo.2 as int) =~= kept_until(
            b,
            lo,
            hi,
            net,
            x + 1,
            lo.1 as int,
            lo.2 as int,
        ));
    }
    assert(kept_until(b, lo, hi, net, hi.0 + 1, lo.1 as int, lo.2 as int) =~= box_kept(b, lo, hi, net).reserved);
}

// --- lamps -------------------------------------------------------------------------------

/// The level that a signal's driver comes out at.
pub open spec fn driver_level(base: Map<Sig, Pos>, s: Sig) -> int {
    if base.contains_key(s) {
        base[s].1 as int
    } else {
        LEVEL_H as int
    }
}

/// Where the wire to the `i`th lamp ends: below the driver of signal `s`, with room
/// for the descent.
pub open spec fn lamp_pad(base: Map<Sig, Pos>, s: Sig, i: int) -> Pos {
    ((3 * i) as i32, (driver_level(base, s) - 4) as i32, (GATE_Z + 14) as i32)
}

/// The lamp itself, under the end of the wire.
pub open spec fn lamp_at(base: Map<Sig, Pos>, s: Sig, i: int) -> Pos {
    moved(lamp_pad(base, s, i), 0, -1, 0)
}

/// The lamps of the first `n` output bits.
pub open spec fn lamp_steps(base: Map<Sig, Pos>, bits: Seq<Sig>, n: nat) -> Seq<Step>
    decreases n,
{
    if n == 0 {
        Seq::empty()
    } else {
        lamp_steps(base, bits, (n - 1) as nat).push(
            Step::Put(lamp_at(base, bits[n - 1], n - 1), Block::Lamp { lit: false }),
        )
    }
}

/// A shell around each of the first `n` lamps is set aside for its own net, so that
/// unrelated wiring cannot light it.
pub open spec fn shells_kept(b: Board, base: Map<Sig, Pos>, bits: Seq<Sig>, n: nat) -> Board
    decreases n,
{
    if n == 0 {
        b
    } else {
        let at = lamp_at(base, bits[n - 1], n - 1);
        box_kept(
            shells_kept(b, base, bits, (n - 1) as nat),
            moved(at, -2, -2, -2),
            moved(at, 2, 2, 2),
            bits[n - 1],
        )
    }
}

// --- spines ------------------------------------------------------------------------------

/// How many gates among the first `n` signals read `s`.
pub open spec fn readers(c: Chart, s: Sig, n: nat) -> nat
    decreases n,
{
    if n == 0 {
        0
    } else {
        let rest = readers(c, s, (n - 1) as nat);
        let g = c.order[n - 1];
        if gate_operands(c.gates[g as int]).contains(s) {
            rest + 1
        } else {
            rest
        }
    }
}

/// The length of a spine: two cells per reader, within limits.
pub open spec fn spine_wanted(readers: nat) -> nat {
    let n = 2 * (if readers == 0 {
        1nat
    } else {
        readers
    });
    if n < SPINE_LEN {
        SPINE_LEN as nat
    } else if n > SPINE_MAX {
        SPINE_MAX as nat
    } else {
        n
    }
}

/// Where a spine stands while it is laid: the works, and the cells that a branch may
/// leave from.
pub struct Spine {
    pub works: Works,
    pub cells: Seq<Pos>,
    /// Something was in the way.
    pub ended: bool,
}

/// The `t`th cell of a spine trailing `out` along Z by `step`.
pub open spec fn spine_at(out: Pos, step: int, t: int) -> Pos {
    moved(out, 0, 0, step * t)
}

/// The first `t` cells of a spine for `net` trailing `out`, until something is in the
/// way. Every sixth is a repeater, which no branch can leave from.
pub open spec fn spine_laid(
    w: Works,
    net: NetId,
    out: Pos,
    step: int,
    mat: Material,
    facing: Dir,
    t: nat,
) -> Spine
    decreases t,
{
    if t == 0 {
        Spine {
            works: Works { board: claimed_by(w.board, out, net), ..w },
            cells: seq![out],
            ended: false,
        }
    } else {
        let s = spine_laid(w, net, out, step, mat, facing, (t - 1) as nat);
        let p = spine_at(out, step, t as int);
        let sub = moved(p, 0, -1, 0);
        if s.ended || !free(s.works.cells, p) || !free(s.works.cells, sub) {
            Spine { ended: true, ..s }
        } else {
            let block = if t % 6 == 0 {
                repeater(facing)
            } else {
                dust()
            };
            Spine {
                works: Works {
                    board: claimed_by(s.works.board, p, net),
                    cells: s.works.cells.insert(sub, Block::Solid(mat)).insert(p, block),
                    stop: s.works.stop,
                },
                cells: if t % 6 == 0 {
                    s.cells
                } else {
                    s.cells.push(p)
                },
                ended: false,
            }
        }
    }
}

/// The works with the spines of the drivers among the first `n` signals.
pub struct Spined {
    pub works: Works,
    pub spine: Map<Sig, Seq<Pos>>,
}

pub open spec fn spines_laid(c: Chart, w: Works, at: Map<Sig, Pos>, n: nat) -> Spined
    decreases n,
{
    if n == 0 {
        Spined { works: w, spine: Map::empty() }
    } else {
        let before = spines_laid(c, w, at, (n - 1) as nat);
        let s = (n - 1) as u32;
        if at.contains_key(s) {
            let laid = spine_laid(
                before.works,
                s,
                at[s],
                1,
                Material::Wire,
                Dir::North,
                spine_wanted(readers(c, s, c.order.len())),
            );
            Spined { works: laid.works, spine: before.spine.insert(s, laid.cells) }
        } else {
            before
        }
    }
}

// --- approach lanes ------------------------------------------------------------------------

/// The `t`th cell of the lane in front of a feed: dust, with a repeater near its far
/// end that makes the lane a fresh source. The lane belongs to the driving net, and is
/// fenced so no other net can run alongside it.
pub open spec fn lane_cell(w: Works, f: Pos, src: NetId, t: int) -> Works {
    let p = moved(f, 0, 0, -t);
    let laid = if free(w.cells, p) {
        built(
            w.cells,
            seq![
                Step::Put(moved(p, 0, -1, 0), Block::Solid(Material::Wire)),
                Step::Put(
                    p,
                    if t == STUB_LEN {
                        repeater(Dir::North)
                    } else {
                        dust()
                    },
                ),
            ],
        )
    } else {
        (w.cells, None)
    };
    if laid.1 is Some {
        Works { cells: laid.0, stop: laid.1, ..w }
    } else {
        let b = claimed_by(w.board, p, src);
        Works {
            cells: laid.0,
            board: Board {
                blocked: b.blocked.insert(moved(p, -1, 0, 0)).insert(moved(p, 1, 0, 0)),
                ..b
            },
            stop: None,
        }
    }
}

/// The first `t` cells of a lane.
pub open spec fn lane_laid(w: Works, f: Pos, src: NetId, t: nat) -> Works
    decreases t,
{
    if t == 0 {
        w
    } else {
        let before = lane_laid(w, f, src, (t - 1) as nat);
        if before.stop is Some {
            before
        } else {
            lane_cell(before, f, src, t - 1)
        }
    }
}

/// Where a route to a feed ends: at the far end of its lane.
pub open spec fn lane_entry(f: Pos) -> Pos {
    moved(f, 0, 0, -5)
}

/// The lane of a feed is laid, and the ground around its entrance is set aside.
pub open spec fn stub_laid(w: Works, f: Pos, src: NetId) -> Works {
    let lane = lane_laid(w, f, src, 6);
    if lane.stop is Some {
        lane
    } else {
        let e = lane_entry(f);
        Works {
            board: box_kept(
                Board { blocked: lane.board.blocked.insert(moved(f, 0, 0, -4)), ..lane.board },
                moved(e, -1, -2, -3),
                moved(e, 1, 2, 1),
                src,
            ),
            ..lane
        }
    }
}

/// The `j`th feed of a gate at `base`.
pub open spec fn feed_at(base: Pos, j: int) -> Pos {
    moved(base, 2 * j, 1, -2)
}

/// The lanes of the first `n` inputs of a gate.
pub open spec fn gate_stubs(w: Works, base: Pos, ops: Seq<Sig>, n: nat) -> Works
    decreases n,
{
    if n == 0 {
        w
    } else {
        let before = gate_stubs(w, base, ops, (n - 1) as nat);
        if before.stop is Some {
            before
        } else {
            stub_laid(before, feed_at(base, n - 1), ops[n - 1])
        }
    }
}

/// The lanes of the gates among the first `n` signals.
pub open spec fn stubs_laid(c: Chart, w: Works, base: Map<Sig, Pos>, n: nat) -> Works
    decreases n,
{
    if n == 0 {
        w
    } else {
        let before = stubs_laid(c, w, base, (n - 1) as nat);
        let g = c.order[n - 1];
        let ops = gate_operands(c.gates[g as int]);
        if before.stop is Some {
            before
        } else if c.gates[g as int] is Nor && base.contains_key(g) {
            gate_stubs(before, base[g], ops, ops.len())
        } else {
            before
        }
    }
}

// --- placing -----------------------------------------------------------------------------

proof fn lemma_lamps_prefix(base: Map<Sig, Pos>, bits: Seq<Sig>, n: nat, m: nat)
    requires
        n <= m,
    ensures
        lamp_steps(base, bits, m).len() == m,
        lamp_steps(base, bits, m).take(n as int) == lamp_steps(base, bits, n),
    decreases m,
{
    if m == 0 {
        assert(lamp_steps(base, bits, m).take(0) =~= lamp_steps(base, bits, 0));
    } else if n == m {
        lemma_lamps_prefix(base, bits, (n - 1) as nat, (m - 1) as nat);
        assert(lamp_steps(base, bits, m).take(n as int) =~= lamp_steps(base, bits, n));
    } else {
        lemma_lamps_prefix(base, bits, n, (m - 1) as nat);
        assert(lamp_steps(base, bits, m).take(n as int) =~= lamp_steps(base, bits, (m - 1) as nat).take(n as int));
    }
}

/// Where the wire to a lamp ends.
pub fn pad_of(base: &Vec<Option<Pos>>, s: Sig, i: usize) -> (p: Pos)
    requires
        s < base@.len(),
        all_within(known(base@), 0x0400_0000),
        i <= 0x0155_5555,
    ensures
        p == lamp_pad(known(base@), s, i as int),
        within(p, 0x0500_0000),
{
    let y: i32 = match base[s as usize] {
        Some(b) => {
            assert(known(base@).contains_key(s) && known(base@)[s] == b);
            b.1
        },
        None => LEVEL_H,
    };
    (i as i32 * 3, y - 4, GATE_Z + 14)
}

/// Stamp the lamps, each just below the cell that drives it.
pub fn place_lamps(g: &mut Grid, base: &Vec<Option<Pos>>, bits: &Vec<Sig>) -> (r: Result<(), String>)
    requires
        forall|i: int| 0 <= i < bits@.len() ==> (#[trigger] bits@[i]) < base@.len(),
        all_within(known(base@), 0x0400_0000),
        bits@.len() <= 0x0155_5555,
        spans(old(g)@, 0x0900_0000),
    ensures
        built(old(g)@, lamp_steps(known(base@), bits@, bits@.len())) == (final(g)@, refusal(r)),
        r is Ok ==> spans(final(g)@, 0x0900_0000),
{
    let ghost plan = lamp_steps(known(base@), bits@, bits@.len());
    let ghost start = g@;
    proof {
        lemma_lamps_prefix(known(base@), bits@, 0, bits@.len());
        assert(plan.take(0) =~= Seq::empty());
    }
    for i in 0..bits.len()
        invariant
            start == old(g)@,
            plan == lamp_steps(known(base@), bits@, bits@.len()),
            plan.len() == bits@.len(),
            forall|i: int| 0 <= i < bits@.len() ==> (#[trigger] bits@[i]) < base@.len(),
            all_within(known(base@), 0x0400_0000),
            bits@.len() <= 0x0155_5555,
            built(start, plan.take(i as int)) == (g@, None::<Seq<char>>),
            spans(g@, 0x0900_0000),
    {
        let s: Sig = bits[i];
        assert(bits@[i as int] < base@.len());
        let pad = pad_of(base, s, i);
        proof {
            lemma_lamps_prefix(known(base@), bits@, (i + 1) as nat, bits@.len());
            let part = lamp_steps(known(base@), bits@, (i + 1) as nat);
            lemma_lamps_prefix(known(base@), bits@, i as nat, i as nat);
            assert(plan.take(i + 1)[i as int] == part[i as int]);
            assert(spans(g@.insert(lamp_at(known(base@), s, i as int), Block::Lamp { lit: false }), 0x0900_0000));
            assert(plan.take(i + 1) =~= plan.take(i as int).push(plan[i as int]));
            crate::steps::lemma_built_push(start, plan.take(i as int), plan[i as int]);
        }
        put(
            g,
            (pad.0, pad.1 - 1, pad.2),
            Block::Lamp { lit: false },
            Ghost(start),
            Ghost(plan),
            Ghost(i as int),
        )?;
    }
    assert(plan.take(bits@.len() as int) =~= plan);
    Ok(())
}

/// Keep the lamps clear of unrelated wiring.
pub fn keep_shells(r: &mut Router, base: &Vec<Option<Pos>>, bits: &Vec<Sig>)
    requires
        forall|i: int| 0 <= i < bits@.len() ==> (#[trigger] bits@[i]) < base@.len(),
        all_within(known(base@), 0x0400_0000),
        bits@.len() <= 0x0155_5555,
    ensures
        final(r)@ == shells_kept(old(r)@, known(base@), bits@, bits@.len()),
        final(r).max_expansions == old(r).max_expansions,
        final(r).tuning == old(r).tuning,
        board_ok(old(r)@) ==> board_ok(final(r)@),
{
    for i in 0..bits.len()
        invariant
            forall|i: int| 0 <= i < bits@.len() ==> (#[trigger] bits@[i]) < base@.len(),
            all_within(known(base@), 0x0400_0000),
            bits@.len() <= 0x0155_5555,
            r@ == shells_kept(old(r)@, known(base@), bits@, i as nat),
            r.max_expansions == old(r).max_expansions,
            r.tuning == old(r).tuning,
            board_ok(old(r)@) ==> board_ok(r@),
    {
        let s: Sig = bits[i];
        assert(bits@[i as int] < base@.len());
        let pad = pad_of(base, s, i);
        keep_box(
            r,
            (pad.0 - 2, pad.1 - 3, pad.2 - 2),
            (pad.0 + 2, pad.1 + 1, pad.2 + 2),
            s,
        );
    }
}

/// The works are as a router and a grid, within range.
pub open spec fn running(w: Works, r: Router, g: Grid) -> bool {
    &&& w.stop is None
    &&& r@ == w.board
    &&& g@ == w.cells
    &&& board_ok(r@)
    &&& spans(g@, 0x0b00_0000)
}

/// Lay a spine trailing `out` along Z, so that several branches can leave it.
pub fn lay_spine(
    g: &mut Grid,
    r: &mut Router,
    net: NetId,
    out: Pos,
    north: bool,
    mat: Material,
    facing: Dir,
    want: u32,
    Ghost(w): Ghost<Works>,
) -> (cells: Vec<Pos>)
    requires
        running(w, *old(r), *old(g)),
        want <= 0x0900_0000,
        within(out, 0x0980_0000 - want),
    ensures
        ({
            let s = spine_laid(w, net, out, if north { -1 } else { 1 }, mat, facing, want as nat);
            &&& running(s.works, *final(r), *final(g))
            &&& cells@ == s.cells
            &&& cells@.len() > 0
            &&& cells@.len() <= want + 1
            &&& forall|i: int| 0 <= i < cells@.len() ==> within(#[trigger] cells@[i], 0x0980_0000)
        }),
        final(r).max_expansions == old(r).max_expansions,
        final(r).tuning == old(r).tuning,
{
    let ghost step: int = if north {
        -1
    } else {
        1
    };
    let mut cells: Vec<Pos> = Vec::new();
    cells.push(out);
    r.claim(out, net);
    assert(cells@ =~= seq![out]);
    for i in 0..want
        invariant
            want <= 0x0900_0000,
            within(out, 0x0980_0000 - want),
            step == if north { -1int } else { 1int },
            ({
                let s = spine_laid(w, net, out, step, mat, facing, i as nat);
                &&& running(s.works, *r, *g)
                &&& cells@ == s.cells
                &&& !s.ended
            }),
            0 < cells@.len() <= i + 1,
            forall|j: int| 0 <= j < cells@.len() ==> within(#[trigger] cells@[j], 0x0980_0000),
            r.max_expansions == old(r).max_expansions,
            r.tuning == old(r).tuning,
    {
        let t: i32 = i as i32 + 1;
        let p: Pos = if north {
            (out.0, out.1, out.2 - t)
        } else {
            (out.0, out.1, out.2 + t)
        };
        let sub: Pos = (p.0, p.1 - 1, p.2);
        let ghost s = spine_laid(w, net, out, step, mat, facing, i as nat);
        assert(step * t == if north { -t as int } else { t as int }) by (nonlinear_arith)
            requires
                step == if north { -1int } else { 1int },
        ;
        assert(p == spine_at(out, step, t as int));
        assert(within(p, 0x0980_0000));
        if !g.is_free(p) || !g.is_free(sub) {
            proof {
                lemma_spine_ended(w, net, out, step, mat, facing, (i + 1) as nat, want as nat);
            }
            return cells;
        }
        let ghost had = cells@;
        set_free(g, sub, Block::Solid(mat));
        r.claim(p, net);
        if t % SPINE_REFRESH == 0 {
            // A repeater reads from the side it faces. It is not a branch point - a
            // route cannot leave from a repeater - so it is claimed but kept out of
            // the source list.
            set_free(g, p, Block::Repeater { facing, delay: 1, powered: false });
        } else {
            set_free(g, p, Block::Dust { power: 0 });
            cells.push(p);
        }
        proof {
            assert forall|j: int| 0 <= j < cells@.len() implies within(#[trigger] cells@[j], 0x0980_0000) by {
                if j < had.len() {
                    assert(cells@[j] == had[j]);
                }
            }
        }
    }
    cells
}

/// Place a block in a free cell.
fn set_free(g: &mut Grid, p: Pos, b: Block)
    requires
        free(old(g)@, p),
    ensures
        final(g)@ == old(g)@.insert(p, b),
{
    g.force(p, b);
}

proof fn lemma_spine_ended(w: Works, net: NetId, out: Pos, step: int, mat: Material, facing: Dir, t: nat, m: nat)
    requires
        spine_laid(w, net, out, step, mat, facing, t).ended,
        t <= m,
    ensures
        spine_laid(w, net, out, step, mat, facing, m) == spine_laid(w, net, out, step, mat, facing, t),
    decreases m,
{
    if t < m {
        lemma_spine_ended(w, net, out, step, mat, facing, t, (m - 1) as nat);
    }
}

/// The spines that are known.
pub open spec fn known_spines(v: Seq<Vec<Pos>>) -> Map<Sig, Seq<Pos>> {
    Map::new(|s: Sig| s < v.len() && v[s as int]@.len() > 0, |s: Sig| v[s as int]@)
}

/// Every spine cell is within `n`.
pub open spec fn spines_within(v: Seq<Vec<Pos>>, n: int) -> bool {
    &&& forall|s: int, i: int|
        0 <= s < v.len() && 0 <= i < v[s]@.len() ==> within(#[trigger] v[s]@[i], n)
    &&& forall|s: int| 0 <= s < v.len() ==> (#[trigger] v[s])@.len() <= SPINE_MAX + 1
}

/// How many gates read each signal.
fn count_readers(net: &Netlist, order: &Vec<Sig>, s: Sig, Ghost(c): Ghost<Chart>) -> (n: u32)
    requires
        c.gates == net.gates(),
        c.order == order@,
        crate::floorplan::chart_ok(c),
        order@.len() <= 0xffff_fffd,
    ensures
        n == readers(c, s, c.order.len()),
{
    let mut n: u32 = 0;
    for i in 0..order.len()
        invariant
            c.gates == net.gates(),
            c.order == order@,
            crate::floorplan::chart_ok(c),
            order@.len() <= 0xffff_fffd,
            n == readers(c, s, i as nat),
            n <= i,
    {
        let g: Sig = order[i];
        assert(c.order[i as int] < c.gates.len());
        let ops = net.operands(g);
        let mut found = false;
        for k in 0..ops.len()
            invariant
                found == ops@.take(k as int).contains(s),
        {
            let ghost part = ops@.take(k as int);
            if ops[k] == s {
                found = true;
            }
            proof {
                assert(ops@.take(k + 1) =~= part.push(ops@[k as int]));
                crate::route::lemma_has_push(part, ops@[k as int], s);
            }
        }
        assert(ops@.take(ops@.len() as int) =~= ops@);
        if found {
            n = n + 1;
        }
    }
    n
}

/// Lay the output spines of all drivers.
pub fn lay_spines(
    net: &Netlist,
    order: &Vec<Sig>,
    g: &mut Grid,
    r: &mut Router,
    at: &Vec<Option<Pos>>,
    Ghost(c): Ghost<Chart>,
    Ghost(w): Ghost<Works>,
) -> (spines: Vec<Vec<Pos>>)
    requires
        c.gates == net.gates(),
        c.order == order@,
        crate::floorplan::chart_ok(c),
        order@.len() <= 0xffff_fffd,
        at@.len() == c.gates.len(),
        all_within(known(at@), 0x0900_0000),
        running(w, *old(r), *old(g)),
    ensures
        ({
            let s = spines_laid(c, w, known(at@), c.gates.len());
            &&& running(s.works, *final(r), *final(g))
            &&& known_spines(spines@) == s.spine
        }),
        spines@.len() == c.gates.len(),
        spines_within(spines@, 0x0980_0000),
        final(r).max_expansions == old(r).max_expansions,
        final(r).tuning == old(r).tuning,
{
    let mut spines: Vec<Vec<Pos>> = Vec::new();
    let n: usize = at.len();
    assert(known_spines(spines@) =~= Map::empty());
    for i in 0..n
        invariant
            c.gates == net.gates(),
            c.order == order@,
            crate::floorplan::chart_ok(c),
            order@.len() <= 0xffff_fffd,
            n == at@.len() == c.gates.len(),
            all_within(known(at@), 0x0900_0000),
            ({
                let s = spines_laid(c, w, known(at@), i as nat);
                &&& running(s.works, *r, *g)
                &&& known_spines(spines@) == s.spine
            }),
            spines@.len() == i,
            spines_within(spines@, 0x0980_0000),
            r.max_expansions == old(r).max_expansions,
            r.tuning == old(r).tuning,
    {
        let s: Sig = i as u32;
        let ghost before = spines_laid(c, w, known(at@), i as nat);
        let ghost had = spines@;
        match at[i] {
            Some(out) => {
                assert(known(at@).contains_key(s) && known(at@)[s] == out);
                let k: u32 = count_readers(net, order, s, Ghost(c));
                let two: u32 = if k == 0 {
                    2
                } else if k > 0x1000 {
                    0x2000
                } else {
                    2 * k
                };
                let want: u32 = if two < SPINE_LEN as u32 {
                    SPINE_LEN as u32
                } else if two > SPINE_MAX as u32 {
                    SPINE_MAX as u32
                } else {
                    two
                };
                assert(want == spine_wanted(readers(c, s, c.order.len())));
                let cells = lay_spine(
                    g,
                    r,
                    s,
                    out,
                    false,
                    Material::Wire,
                    Dir::North,
                    want,
                    Ghost(before.works),
                );
                let ghost laid = cells@;
                spines.push(cells);
                assert(known_spines(spines@) =~= known_spines(had).insert(s, laid));
            },
            None => {
                assert(!known(at@).contains_key(s));
                spines.push(Vec::new());
                assert(known_spines(spines@) =~= known_spines(had));
            },
        }
        assert forall|a: int| 0 <= a < spines@.len() implies (#[trigger] spines@[a])@.len() <= SPINE_MAX + 1 by {
            if a < had.len() {
                assert(spines@[a] == had[a]);
            }
        }
        assert forall|a: int, b: int| 0 <= a < spines@.len() && 0 <= b < spines@[a]@.len() implies within(#[trigger] spines@[a]@[b], 0x0980_0000) by {
            if a < had.len() {
                assert(spines@[a] == had[a]);
            }
        }
    }
    spines
}

/// Lay one cell of a lane.
fn lay_lane_cell(g: &mut Grid, r: &mut Router, f: Pos, src: NetId, t: i32, Ghost(w): Ghost<Works>) -> (res: Result<(), String>)
    requires
        running(w, *old(r), *old(g)),
        within(f, 0x0a00_0000),
        0 <= t <= 5,
    ensures
        ({
            let after = lane_cell(w, f, src, t as int);
            match res {
                Ok(_) => running(after, *final(r), *final(g)),
                Err(m) => after.stop == Some(m@),
            }
        }),
        final(r).max_expansions == old(r).max_expansions,
        final(r).tuning == old(r).tuning,
{
    let p: Pos = (f.0, f.1, f.2 - t);
    if g.is_free(p) {
        let block = if t == STUB_LEN {
            Block::Repeater { facing: Dir::North, delay: 1, powered: false }
        } else {
            Block::Dust { power: 0 }
        };
        let ghost start = g@;
        let ghost plan = seq![
            Step::Put(moved(p, 0, -1, 0), Block::Solid(Material::Wire)),
            Step::Put(p, block),
        ];
        proof {
            assert(plan.take(0) =~= Seq::empty());
            assert(puts_within(plan, 0x0b00_0000));
            lemma_built_spans(start, plan, 0x0b00_0000);
        }
        put(g, (p.0, p.1 - 1, p.2), Block::Solid(Material::Wire), Ghost(start), Ghost(plan), Ghost(0))?;
        put(g, p, block, Ghost(start), Ghost(plan), Ghost(1))?;
        assert(plan.take(2) =~= plan);
    }
    r.claim(p, src);
    // Fence the lane so no other net can run alongside it.
    r.block((p.0 - 1, p.1, p.2));
    r.block((p.0 + 1, p.1, p.2));
    Ok(())
}

/// Lay the lane of a feed.
fn lay_stub(g: &mut Grid, r: &mut Router, f: Pos, src: NetId, Ghost(w): Ghost<Works>) -> (res: Result<(), String>)
    requires
        running(w, *old(r), *old(g)),
        within(f, 0x0a00_0000),
    ensures
        ({
            let after = stub_laid(w, f, src);
            match res {
                Ok(_) => running(after, *final(r), *final(g)),
                Err(m) => after.stop == Some(m@),
            }
        }),
        final(r).max_expansions == old(r).max_expansions,
        final(r).tuning == old(r).tuning,
{
    // Dust lane, then a repeater at its far end. The repeater makes the
    // stub a fresh 15-strength source, so the arriving route's signal
    // budget and the stub's are independent.
    for t in 0..6i32
        invariant
            within(f, 0x0a00_0000),
            running(lane_laid(w, f, src, t as nat), *r, *g),
            r.max_expansions == old(r).max_expansions,
            r.tuning == old(r).tuning,
    {
        let ghost before = lane_laid(w, f, src, t as nat);
        match lay_lane_cell(g, r, f, src, t, Ghost(before)) {
            Ok(_) => {},
            Err(e) => {
                proof {
                    lemma_lane_stops(w, f, src, (t + 1) as nat, 6);
                }
                return Err(e);
            },
        }
    }
    // The repeater is not a wire node; routes terminate just past it.
    r.block((f.0, f.1, f.2 - STUB_LEN));
    // Keep a landing zone around the lane entrance for this net alone.
    keep_box(r, (f.0 - 1, f.1 - 2, f.2 - 8), (f.0 + 1, f.1 + 2, f.2 - 4), src);
    Ok(())
}

proof fn lemma_lane_stops(w: Works, f: Pos, src: NetId, t: nat, m: nat)
    requires
        lane_laid(w, f, src, t).stop is Some,
        t <= m,
    ensures
        lane_laid(w, f, src, m) == lane_laid(w, f, src, t),
    decreases m,
{
    if t < m {
        lemma_lane_stops(w, f, src, t, (m - 1) as nat);
    }
}

/// Lay the lanes of a gate.
fn lay_gate_stubs(g: &mut Grid, r: &mut Router, base: Pos, ops: &Vec<Sig>, Ghost(w): Ghost<Works>) -> (res: Result<(), String>)
    requires
        running(w, *old(r), *old(g)),
        within(base, 0x0400_0000),
        ops@.len() <= 0x01ff_ffff,
    ensures
        ({
            let after = gate_stubs(w, base, ops@, ops@.len());
            match res {
                Ok(_) => running(after, *final(r), *final(g)),
                Err(m) => after.stop == Some(m@),
            }
        }),
        final(r).max_expansions == old(r).max_expansions,
        final(r).tuning == old(r).tuning,
{
    for j in 0..ops.len()
        invariant
            within(base, 0x0400_0000),
            ops@.len() <= 0x01ff_ffff,
            running(gate_stubs(w, base, ops@, j as nat), *r, *g),
            r.max_expansions == old(r).max_expansions,
            r.tuning == old(r).tuning,
    {
        let f: Pos = (base.0 + 2 * j as i32, base.1 + 1, base.2 - 2);
        let ghost before = gate_stubs(w, base, ops@, j as nat);
        match lay_stub(g, r, f, ops[j], Ghost(before)) {
            Ok(_) => {},
            Err(e) => {
                proof {
                    lemma_gate_stops(w, base, ops@, (j + 1) as nat, ops@.len());
                }
                return Err(e);
            },
        }
    }
    Ok(())
}

proof fn lemma_gate_stops(w: Works, base: Pos, ops: Seq<Sig>, t: nat, m: nat)
    requires
        gate_stubs(w, base, ops, t).stop is Some,
        t <= m,
    ensures
        gate_stubs(w, base, ops, m) == gate_stubs(w, base, ops, t),
    decreases m,
{
    if t < m {
        lemma_gate_stops(w, base, ops, t, (m - 1) as nat);
    }
}

/// Give every gate input a private approach stub running north from its feed.
///
/// Without this, the route serving one feed travels along the shared lane in
/// front of the cell, and its keepout walls off the neighbouring feed - so a
/// two-input cell becomes unroutable. Pre-placing the stub and claiming it
/// for the driving net means each feed has a guaranteed private lane, and the
/// router only has to reach the lane's far end, where there is open space.
pub fn lay_stubs(
    net: &Netlist,
    order: &Vec<Sig>,
    g: &mut Grid,
    r: &mut Router,
    base: &Vec<Option<Pos>>,
    Ghost(c): Ghost<Chart>,
    Ghost(w): Ghost<Works>,
) -> (res: Result<(), String>)
    requires
        net.wf(),
        c.gates == net.gates(),
        c.order == order@,
        crate::floorplan::chart_ok(c),
        base@.len() == c.gates.len(),
        all_within(known(base@), 0x0400_0000),
        running(w, *old(r), *old(g)),
    ensures
        ({
            let after = stubs_laid(c, w, known(base@), c.order.len());
            match res {
                Ok(_) => running(after, *final(r), *final(g)),
                Err(m) => after.stop == Some(m@),
            }
        }),
        final(r).max_expansions == old(r).max_expansions,
        final(r).tuning == old(r).tuning,
{
    for i in 0..order.len()
        invariant
            net.wf(),
            c.gates == net.gates(),
            c.order == order@,
            crate::floorplan::chart_ok(c),
            base@.len() == c.gates.len(),
            all_within(known(base@), 0x0400_0000),
            running(stubs_laid(c, w, known(base@), i as nat), *r, *g),
            r.max_expansions == old(r).max_expansions,
            r.tuning == old(r).tuning,
    {
        let x: Sig = order[i];
        assert(c.order[i as int] < c.gates.len());
        assert(net.gates()[x as int] == net.sigs@[x as int]@);
        let ghost before = stubs_laid(c, w, known(base@), i as nat);
        let is_nor = match &net.sigs[x as usize] {
            Src::Nor(_) => true,
            _ => false,
        };
        if is_nor {
            match base[x as usize] {
                Some(b) => {
                    assert(known(base@).contains_key(x) && known(base@)[x] == b);
                    let ops = net.operands(x);
                    proof {
                        assert(crate::netlist::gate_wf(net.gates()[x as int], x as int, net.dffs@.len()));
                        crate::floorplan::lemma_operand_count(c.gates[x as int], x as int, net.dffs@.len());
                    }
                    match lay_gate_stubs(g, r, b, &ops, Ghost(before)) {
                        Ok(_) => {},
                        Err(e) => {
                            proof {
                                lemma_stubs_stop(c, w, known(base@), (i + 1) as nat, order@.len());
                            }
                            return Err(e);
                        },
                    }
                },
                None => {
                    assert(!known(base@).contains_key(x));
                },
            }
        }
    }
    Ok(())
}

proof fn lemma_stubs_stop(c: Chart, w: Works, base: Map<Sig, Pos>, t: nat, m: nat)
    requires
        stubs_laid(c, w, base, t).stop is Some,
        t <= m,
    ensures
        stubs_laid(c, w, base, m) == stubs_laid(c, w, base, t),
    decreases m,
{
    if t < m {
        lemma_stubs_stop(c, w, base, t, (m - 1) as nat);
    }
}

/// A spine joins no routed wires: it is placed by hand.
pub proof fn lemma_spine_still_apart(w: Works, net: NetId, out: Pos, step: int, mat: Material, facing: Dir, t: nat)
    ensures
        still_apart(w.board, spine_laid(w, net, out, step, mat, facing, t).works.board),
    decreases t,
{
    if t == 0 {
        lemma_claim_still_apart(w.board, out, net);
    } else {
        lemma_spine_still_apart(w, net, out, step, mat, facing, (t - 1) as nat);
        let before = spine_laid(w, net, out, step, mat, facing, (t - 1) as nat).works.board;
        let p = spine_at(out, step, t as int);
        lemma_claim_still_apart(before, p, net);
        lemma_still_apart_trans(w.board, before, claimed_by(before, p, net));
    }
}

} // verus!
