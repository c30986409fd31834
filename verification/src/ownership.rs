//! Every connection owns its ends: where things stand keeps spines and lanes of
//! different nets off each other's cells.
use crate::bank::{
    bank_base, bank_built, banked, ctrl_steps, flop_base, flops_within, q_of, q_sources, Bank, Banked,
    FLOOR_EDGE,
};
use crate::deep::{spans, within};
use crate::floorplan::{
    all_within, chart_ok, column, deepest, in_range, leaf_steps, leaves, levers_placed, row_before, row_of,
    rows_placed, swept, tap_at, wish, with_gate, Chart, Floor,
};
use crate::flop::{
    d_board, d_bounds, d_clear, d_fan, d_fans, d_gate, d_gates, d_latch_built, d_pads, d_ports,
    d_stamped, d_wire, d_wires, dff_bounds, dff_built, dff_slave, far_z, is_far_z, leg, leg_wanted,
    port_prefix, wire_prefix, works_on,
};
use crate::keepout::{ends_owned, owns};
use crate::layout::{
    all_bits, floor_of, nets_of, with_lamps, with_lanes, with_spines, Draft,
};
use crate::negotiate::{conn_of, gate_listed, with_conn, work_listed, Conn, Listed};
use crate::netlist::{gate_operands, Gate, Sig};
use crate::paths::{conflict_of, repeaters_of};
use crate::route::{
    aimed, attempt, barred, claimed_by, free, nodes_laid, tried, unbarred, Board, NetId, Tuning,
    Wanted, Works,
};
use crate::search::searched;
use crate::steps::{built, Step};
use crate::tech::{
    dust, fan_in, latch_b, latch_built, latch_started, link_steps, moved, nor_feeds, nor_out, nor_steps,
    return_steps, switched_on,
};
use crate::wiring::{
    feed_at, gate_stubs, lamp_steps, lane_cell, lane_entry, lane_laid, readers,
    shells_kept, spine_at, spine_laid, spine_wanted, spines_laid, stub_laid, stubs_laid,
};
use crate::world::{Block, Dir, Material, Pos};
use vstd::prelude::*;

verus! {

// --- where things stand --------------------------------------------------------------------

/// How many columns a gate takes.
spec fn width_of(c: Chart, g: Sig) -> int {
    2 * (fan_in(gate_operands(c.gates[g as int]).len() as int) - 1)
}

/// Two gates of a row take columns of their own.
spec fn columns_apart(c: Chart, f: Floor, g: Sig, h: Sig) -> bool {
    f.base[g].0 + width_of(c, g) < f.base[h].0 || f.base[h].0 + width_of(c, h) < f.base[g].0
}

spec fn outputs_solid(f: Floor) -> bool {
    forall|s: Sig| #[trigger] f.at.contains_key(s) ==> !free(f.cells, f.at[s])
}

spec fn outputs_differ(f: Floor) -> bool {
    forall|s: Sig, t: Sig|
        #![trigger f.at.contains_key(s), f.at.contains_key(t)]
        f.at.contains_key(s) && f.at.contains_key(t) && s != t ==> f.at[s] != f.at[t]
}

/// Every signal comes out at a level.
spec fn outputs_level(f: Floor) -> bool {
    forall|s: Sig| #[trigger] f.at.contains_key(s) ==> f.at[s].1 as int % 6 == 0
}

spec fn gates_level(f: Floor) -> bool {
    forall|g: Sig| #[trigger]
        f.base.contains_key(g) ==> f.base[g].1 as int % 6 == 0 && f.base[g].2 == 0 && 0 <= f.base[g].0
            <= 0x0400_0000
}

spec fn gates_apart(c: Chart, f: Floor) -> bool {
    forall|g: Sig, h: Sig|
        #![trigger f.base.contains_key(g), f.base.contains_key(h)]
        f.base.contains_key(g) && f.base.contains_key(h) && g != h && f.base[g].1 == f.base[h].1
            ==> columns_apart(c, f, g, h)
}

/// A floor on which nothing stands on anything else.
spec fn tidy(c: Chart, f: Floor) -> bool {
    &&& outputs_solid(f)
    &&& outputs_differ(f)
    &&& outputs_level(f)
    &&& gates_level(f)
    &&& gates_apart(c, f)
}

/// What is at `p` before is there after.
spec fn stays(before: Map<Pos, Block>, after: Map<Pos, Block>, p: Pos) -> bool {
    &&& !free(before, p) ==> !free(after, p)
    &&& before.contains_key(p) ==> after.contains_key(p)
}

/// Building takes nothing away.
proof fn lemma_built_keeps(cells: Map<Pos, Block>, steps: Seq<Step>, p: Pos)
    ensures
        stays(cells, built(cells, steps).0, p),
    decreases steps.len(),
{
    if steps.len() > 0 {
        lemma_built_keeps(cells, steps.drop_last(), p);
    }
}

/// The levers so far: they stand side by side.
spec fn levers_in_row(f: Floor, n: int) -> bool {
    &&& forall|s: Sig| #[trigger]
        f.at.contains_key(s) ==> f.at[s].1 == 6 && 0 <= f.at[s].0 <= 3 * (n - 1)
    &&& f.base == Map::<Sig, Pos>::empty()
}

proof fn lemma_levers_tidy(c: Chart, row: Seq<Sig>, n: nat)
    requires
        n <= row.len() <= 0x0155_5555,
    ensures
        levers_placed(c, row, n).stop is None ==> {
            &&& tidy(c, levers_placed(c, row, n))
            &&& levers_in_row(levers_placed(c, row, n), n as int)
        },
    decreases n,
{
    if n > 0 {
        lemma_levers_tidy(c, row, (n - 1) as nat);
        let f = levers_placed(c, row, (n - 1) as nat);
        if f.stop is None {
            let i = n - 1;
            let steps = leaf_steps(c.gates[row[i] as int], i);
            let b = built(f.cells, steps);
            let after = levers_placed(c, row, n);
            if b.1 is None {
                assert(steps.last() == Step::Put(tap_at(i), dust()));
                assert(!free(b.0, tap_at(i)));
                assert forall|s: Sig| #[trigger] after.at.contains_key(s) implies !free(
                    after.cells,
                    after.at[s],
                ) by {
                    if s != row[i] {
                        assert(f.at.contains_key(s));
                        lemma_built_keeps(f.cells, steps, f.at[s]);
                    }
                }
                assert forall|s: Sig, t: Sig|
                    #![trigger after.at.contains_key(s), after.at.contains_key(t)]
                    after.at.contains_key(s) && after.at.contains_key(t) && s != t implies after.at[s]
                    != after.at[t] by {
                    if s != row[i] {
                        assert(f.at.contains_key(s));
                    }
                    if t != row[i] {
                        assert(f.at.contains_key(t));
                    }
                }
                assert forall|s: Sig| #[trigger] after.at.contains_key(s) implies after.at[s].1 == 6 && 0
                    <= after.at[s].0 <= 3 * (n - 1) by {
                    if s != row[i] {
                        assert(f.at.contains_key(s));
                    }
                }
                assert forall|s: Sig| #[trigger] after.at.contains_key(s) implies after.at[s].1 as int % 6 == 0 by {
                    assert(after.at[s].1 == 6);
                }
            }
        }
    }
}

/// A row so far: its gates stand left of the first free column.
spec fn row_so_far(c: Chart, f: Floor, l: int, x: int) -> bool {
    &&& forall|g: Sig| #[trigger]
        f.base.contains_key(g) ==> f.base[g].1 >= -6 * l && (f.base[g].1 == -6 * l ==> f.base[g].0
            + width_of(c, g) < x)
    &&& forall|s: Sig| #[trigger]
        f.at.contains_key(s) ==> f.at[s].1 >= -6 * l && (f.at[s].1 == -6 * l ==> f.at[s].0 < x)
}

proof fn lemma_swept_tidy(c: Chart, start: Floor, l: nat, row: Seq<Sig>, n: nat)
    requires
        tidy(c, start),
        row_so_far(c, start, l - 1, 0x0400_0000),
        start.stop is None,
        1 <= l <= 0x00aa_aaaa,
        n <= row.len(),
        forall|i: int|
            0 <= i < row.len() ==> gate_operands(c.gates[(#[trigger] row[i]) as int]).len() <= 0x01ff_ffff,
    ensures
        ({
            let s = swept(c, start, l, row, n);
            s.floor.stop is None ==> {
                &&& tidy(c, s.floor)
                &&& row_so_far(c, s.floor, l as int, 0x0400_0000)
                &&& row_so_far(c, s.floor, l as int, s.x)
            }
        }),
    decreases n,
{
    if n == 0 {
        let s = swept(c, start, l, row, n);
        assert(-6 * (l - 1) > -6 * l);
        assert(row_so_far(c, start, l as int, s.x));
        assert(row_so_far(c, start, l as int, 0x0400_0000));
    } else {
        lemma_swept_tidy(c, start, l, row, (n - 1) as nat);
        let s = swept(c, start, l, row, (n - 1) as nat);
        if s.floor.stop is None {
            let g = row[n - 1];
            let k = fan_in(gate_operands(c.gates[g as int]).len() as int);
            let x = column(wish(c, start.at, g), s.x);
            if x + 2 * k <= crate::floorplan::WIDTH_MAX {
                let base: Pos = (x as i32, (-(l * crate::floorplan::LEVEL_H)) as i32, crate::floorplan::GATE_Z);
                let steps = nor_steps(base, k);
                let b = built(s.floor.cells, steps);
                let f = s.floor;
                let after = swept(c, start, l, row, n).floor;
                if b.1 is None {
                    lemma_gate_tidy(c, f, l as int, g, x, s.x, base, steps, after);
                }
            }
        }
    }
}

/// One more gate at the end of a row.
proof fn lemma_gate_tidy(
    c: Chart,
    f: Floor,
    l: int,
    g: Sig,
    x: int,
    from: int,
    base: Pos,
    steps: Seq<Step>,
    after: Floor,
)
    requires
        tidy(c, f),
        row_so_far(c, f, l, from),
        x >= from,
        0 <= x,
        x + 2 * fan_in(gate_operands(c.gates[g as int]).len() as int) <= 0x03ff_ffff,
        1 <= l <= 0x00aa_aaaa,
        base == (x as i32, (-6 * l) as i32, 0i32),
        steps == nor_steps(base, fan_in(gate_operands(c.gates[g as int]).len() as int)),
        gate_operands(c.gates[g as int]).len() <= 0x01ff_ffff,
        built(f.cells, steps).1 is None,
        after.cells == built(f.cells, steps).0,
        after.at == f.at.insert(g, nor_out(base)),
        after.base == f.base.insert(g, base),
    ensures
        tidy(c, after),
        row_so_far(c, after, l, x + width_of(c, g) + 1 + 6),
        row_so_far(c, after, l, 0x0400_0000),
{
    lemma_gate_solid(c, f, g, base, steps, after);
    lemma_gate_row(c, f, l, g, x, from, base, after);
}

/// The outputs still stand, and so does that of one more gate.
proof fn lemma_gate_solid(c: Chart, f: Floor, g: Sig, base: Pos, steps: Seq<Step>, after: Floor)
    requires
        outputs_solid(f),
        steps == nor_steps(base, fan_in(gate_operands(c.gates[g as int]).len() as int)),
        built(f.cells, steps).1 is None,
        after.cells == built(f.cells, steps).0,
        after.at == f.at.insert(g, nor_out(base)),
    ensures
        outputs_solid(after),
{
    let out = nor_out(base);
    assert(steps.last() == Step::Put(out, dust()));
    assert(!free(after.cells, out));
    assert forall|s: Sig| #[trigger] after.at.contains_key(s) implies !free(after.cells, after.at[s]) by {
        if s != g {
            assert(f.at.contains_key(s));
            lemma_built_keeps(f.cells, steps, f.at[s]);
        }
    }
}

/// One more gate stands to the right of its row.
proof fn lemma_gate_row(c: Chart, f: Floor, l: int, g: Sig, x: int, from: int, base: Pos, after: Floor)
    requires
        outputs_differ(f),
        outputs_level(f),
        gates_level(f),
        gates_apart(c, f),
        row_so_far(c, f, l, from),
        x >= from,
        0 <= x,
        x + 2 * fan_in(gate_operands(c.gates[g as int]).len() as int) <= 0x03ff_ffff,
        1 <= l <= 0x00aa_aaaa,
        base == (x as i32, (-6 * l) as i32, 0i32),
        after.at == f.at.insert(g, nor_out(base)),
        after.base == f.base.insert(g, base),
    ensures
        outputs_differ(after),
        outputs_level(after),
        gates_level(after),
        gates_apart(c, after),
        row_so_far(c, after, l, x + width_of(c, g) + 1 + 6),
        row_so_far(c, after, l, 0x0400_0000),
{
    assert((-6 * l) % 6 == 0);
    assert forall|s: Sig, t: Sig|
        #![trigger after.at.contains_key(s), after.at.contains_key(t)]
        after.at.contains_key(s) && after.at.contains_key(t) && s != t implies after.at[s] != after.at[t] by {
        if s != g {
            assert(f.at.contains_key(s));
        }
        if t != g {
            assert(f.at.contains_key(t));
        }
    }
    assert forall|s: Sig| #[trigger] after.at.contains_key(s) implies after.at[s].1 as int % 6 == 0 by {
        if s != g {
            assert(f.at.contains_key(s));
        }
    }
    assert forall|h: Sig| #[trigger] after.base.contains_key(h) implies after.base[h].1 as int % 6 == 0
        && after.base[h].2 == 0 && 0 <= after.base[h].0 <= 0x0400_0000 by {
        if h != g {
            assert(f.base.contains_key(h));
        }
    }
    assert forall|a: Sig, h: Sig|
        #![trigger after.base.contains_key(a), after.base.contains_key(h)]
        after.base.contains_key(a) && after.base.contains_key(h) && a != h && after.base[a].1
            == after.base[h].1 implies columns_apart(c, after, a, h) by {
        if a != g {
            assert(f.base.contains_key(a));
        }
        if h != g {
            assert(f.base.contains_key(h));
        }
        if a != g && h != g {
            assert(columns_apart(c, f, a, h));
        }
    }
    let next = x + width_of(c, g) + 1 + 6;
    assert forall|h: Sig| #[trigger] after.base.contains_key(h) implies after.base[h].1 >= -6 * l && (after.base[h].1
        == -6 * l ==> after.base[h].0 + width_of(c, h) < next) by {
        if h != g {
            assert(f.base.contains_key(h));
        }
    }
    assert forall|s: Sig| #[trigger] after.at.contains_key(s) implies after.at[s].1 >= -6 * l && (after.at[s].1
        == -6 * l ==> after.at[s].0 < next) by {
        if s != g {
            assert(f.at.contains_key(s));
        }
    }
}

proof fn lemma_row_members(c: Chart, at: Map<Sig, Pos>, l: nat, n: nat)
    requires
        n <= c.order.len(),
    ensures
        forall|i: int| 0 <= i < row_of(c, at, l, n).len() ==> c.order.contains(#[trigger] row_of(c, at, l, n)[i]),
    decreases n,
{
    if n > 0 {
        lemma_row_members(c, at, l, (n - 1) as nat);
        let rest = row_of(c, at, l, (n - 1) as nat);
        let g = c.order[n - 1];
        assert(c.order.contains(g));
        lemma_with_gate_members(c, at, rest, g);
    }
}

proof fn lemma_with_gate_members(c: Chart, at: Map<Sig, Pos>, row: Seq<Sig>, g: Sig)
    requires
        forall|i: int| 0 <= i < row.len() ==> c.order.contains(#[trigger] row[i]),
        c.order.contains(g),
    ensures
        forall|i: int|
            0 <= i < with_gate(c, at, row, g).len() ==> c.order.contains(#[trigger] with_gate(c, at, row, g)[i]),
    decreases row.len(),
{
    let after = with_gate(c, at, row, g);
    if row.len() > 0 && row_before(c, at, g, row.last()) {
        let rest = row.drop_last();
        assert forall|i: int| 0 <= i < rest.len() implies c.order.contains(#[trigger] rest[i]) by {
            assert(rest[i] == row[i]);
        }
        lemma_with_gate_members(c, at, rest, g);
        let inner = with_gate(c, at, rest, g);
        assert forall|i: int| 0 <= i < after.len() implies c.order.contains(#[trigger] after[i]) by {
            if i < inner.len() {
                assert(after[i] == inner[i]);
            } else {
                assert(after[i] == row[row.len() - 1]);
            }
        }
    } else {
        assert forall|i: int| 0 <= i < after.len() implies c.order.contains(#[trigger] after[i]) by {
            if i < row.len() {
                assert(after[i] == row[i]);
            }
        }
    }
}

proof fn lemma_rows_tidy(c: Chart, start: Floor, l: nat)
    requires
        tidy(c, start),
        row_so_far(c, start, 0, 0x0400_0000),
        start.stop is None,
        l <= 0x00aa_aaaa,
        chart_ok(c),
    ensures
        rows_placed(c, start, l).stop is None ==> {
            &&& tidy(c, rows_placed(c, start, l))
            &&& row_so_far(c, rows_placed(c, start, l), l as int, 0x0400_0000)
        },
    decreases l,
{
    if l > 0 {
        lemma_rows_tidy(c, start, (l - 1) as nat);
        let f = rows_placed(c, start, (l - 1) as nat);
        if f.stop is None {
            let row = row_of(c, f.at, l, c.order.len());
            lemma_row_members(c, f.at, l, c.order.len());
            assert forall|i: int| 0 <= i < row.len() implies gate_operands(
                c.gates[(#[trigger] row[i]) as int],
            ).len() <= 0x01ff_ffff by {
                let k = choose|k: int| 0 <= k < c.order.len() && c.order[k] == row[i];
                assert(c.order[k] < c.gates.len());
            }
            lemma_swept_tidy(c, f, l, row, row.len());
        }
    }
}

proof fn lemma_leaf_count(c: Chart, n: nat)
    ensures
        leaves(c, n).len() <= n,
    decreases n,
{
    if n > 0 {
        lemma_leaf_count(c, (n - 1) as nat);
    }
}

// --- spines ----------------------------------------------------------------------------------

/// Nothing has changed hands at `q`.
spec fn same_at(a: Board, b: Board, q: Pos) -> bool {
    &&& a.owner.contains_key(q) == b.owner.contains_key(q)
    &&& a.owner.contains_key(q) ==> a.owner[q] == b.owner[q]
    &&& a.claimed.contains(q) == b.claimed.contains(q)
}

spec fn owns_at(b: Board, net: NetId, q: Pos) -> bool {
    b.owner.contains_key(q) && b.owner[q] == net && b.claimed.contains(q)
}

/// A spine takes its own output and free cells, all on one level.
proof fn lemma_spine_takes(w: Works, net: NetId, out: Pos, mat: Material, facing: Dir, t: nat, q: Pos)
    requires
        !free(w.cells, out),
        within(out, 0x0900_0000),
        t <= 24,
    ensures
        ({
            let s = spine_laid(w, net, out, 1, mat, facing, t);
            &&& !free(w.cells, q) ==> !free(s.works.cells, q)
            &&& !free(w.cells, q) && q != out ==> same_at(w.board, s.works.board, q)
            &&& s.works.stop == w.stop
            &&& s.cells.len() > 0
            &&& forall|i: int|
                0 <= i < s.cells.len() ==> owns_at(s.works.board, net, #[trigger] s.cells[i]) && !free(
                    s.works.cells,
                    s.cells[i],
                ) && s.cells[i].1 == out.1 && (s.cells[i] == out || free(w.cells, s.cells[i]))
        }),
    decreases t,
{
    if t > 0 {
        lemma_spine_takes(w, net, out, mat, facing, (t - 1) as nat, q);
        let before = spine_laid(w, net, out, 1, mat, facing, (t - 1) as nat);
        let p = spine_at(out, 1, t as int);
        lemma_spine_takes(w, net, out, mat, facing, (t - 1) as nat, p);
        lemma_spine_takes(w, net, out, mat, facing, (t - 1) as nat, moved(p, 0, -1, 0));
    }
}

/// The spines of the signals before `n` are in place.
spec fn spines_in_place(w0: Works, at: Map<Sig, Pos>, w: Works, spine: Map<Sig, Seq<Pos>>, n: int) -> bool {
    &&& forall|s: Sig| #[trigger] spine.contains_key(s) <==> at.contains_key(s) && s < n
    &&& forall|s: Sig, i: int|
        #![trigger spine[s][i]]
        spine.contains_key(s) && 0 <= i < spine[s].len() ==> owns_at(w.board, s, spine[s][i]) && !free(
            w.cells,
            spine[s][i],
        ) && spine[s][i].1 == at[s].1 && (spine[s][i] == at[s] || free(w0.cells, spine[s][i]))
    &&& forall|q: Pos| !free(w0.cells, q) ==> !#[trigger] free(w.cells, q)
}

proof fn lemma_spines_own(c: Chart, w0: Works, at: Map<Sig, Pos>, n: nat)
    requires
        n <= 0xffff_fffd,
        forall|s: Sig| #[trigger] at.contains_key(s) ==> !free(w0.cells, at[s]) && within(
            at[s],
            0x0900_0000,
        ),
        forall|s: Sig, t: Sig|
            #![trigger at.contains_key(s), at.contains_key(t)]
            at.contains_key(s) && at.contains_key(t) && s != t ==> at[s] != at[t],
    ensures
        ({
            let after = spines_laid(c, w0, at, n);
            &&& spines_in_place(w0, at, after.works, after.spine, n as int)
            &&& after.works.stop == w0.stop
        }),
    decreases n,
{
    if n > 0 {
        lemma_spines_own(c, w0, at, (n - 1) as nat);
        let before = spines_laid(c, w0, at, (n - 1) as nat);
        let after = spines_laid(c, w0, at, n);
        let s = (n - 1) as u32;
        if at.contains_key(s) {
            let want = spine_wanted(readers(c, s, c.order.len()));
            let laid = spine_laid(before.works, s, at[s], 1, Material::Wire, Dir::North, want);
            assert(!free(before.works.cells, at[s]));
            lemma_spine_takes(before.works, s, at[s], Material::Wire, Dir::North, want, at[s]);
            assert forall|q: Pos| !free(w0.cells, q) implies !#[trigger] free(after.works.cells, q) by {
                assert(!free(before.works.cells, q));
                lemma_spine_takes(before.works, s, at[s], Material::Wire, Dir::North, want, q);
            }
            assert forall|u: Sig, i: int|
                #![trigger after.spine[u][i]]
                after.spine.contains_key(u) && 0 <= i < after.spine[u].len() implies owns_at(
                after.works.board,
                u,
                after.spine[u][i],
            ) && !free(after.works.cells, after.spine[u][i]) && after.spine[u][i].1 == at[u].1 && (
            after.spine[u][i] == at[u] || free(w0.cells, after.spine[u][i])) by {
                let q = after.spine[u][i];
                if u == s {
                    assert(q == laid.cells[i]);
                    if free(before.works.cells, q) {
                        assert(free(w0.cells, q)) by {
                            if !free(w0.cells, q) {
                                assert(!free(before.works.cells, q));
                            }
                        }
                    }
                } else {
                    assert(before.spine.contains_key(u));
                    assert(before.spine[u][i] == q);
                    assert(at.contains_key(u));
                    assert(q != at[s]);
                    lemma_spine_takes(before.works, s, at[s], Material::Wire, Dir::North, want, q);
                }
            }
        } else {
            assert forall|u: Sig| #[trigger] after.spine.contains_key(u) <==> at.contains_key(u) && u < n by {}
        }
    }
}

// --- lanes -------------------------------------------------------------------------------------

/// A lane takes cells of its own column and level only.
proof fn lemma_lane_takes(w: Works, f: Pos, src: NetId, t: nat, q: Pos)
    requires
        q.0 != f.0 || q.1 != f.1,
    ensures
        same_at(w.board, lane_laid(w, f, src, t).board, q),
    decreases t,
{
    if t > 0 {
        lemma_lane_takes(w, f, src, (t - 1) as nat, q);
    }
}

proof fn lemma_stub_takes(w: Works, f: Pos, src: NetId, q: Pos)
    requires
        q.0 != f.0 || q.1 != f.1,
    ensures
        same_at(w.board, stub_laid(w, f, src).board, q),
{
    lemma_lane_takes(w, f, src, 6, q);
}

/// A lane that is laid owns its entrance.
proof fn lemma_stub_owns(w: Works, f: Pos, src: NetId)
    requires
        stub_laid(w, f, src).stop is None,
    ensures
        owns_at(stub_laid(w, f, src).board, src, lane_entry(f)),
{
    let lane = lane_laid(w, f, src, 6);
    assert(lane.stop is None);
    let before = lane_laid(w, f, src, 5);
    assert(before.stop is None);
    assert(lane == lane_cell(before, f, src, 5));
}

/// The lanes of a gate take cells in the columns of its inputs, on their level.
proof fn lemma_gate_takes(w: Works, base: Pos, ops: Seq<Sig>, n: nat, q: Pos)
    requires
        n <= ops.len(),
        q.1 != feed_at(base, 0).1 || forall|j: int| 0 <= j < ops.len() ==> q.0 != (#[trigger] feed_at(base, j)).0,
    ensures
        same_at(w.board, gate_stubs(w, base, ops, n).board, q),
    decreases n,
{
    if n > 0 {
        lemma_gate_takes(w, base, ops, (n - 1) as nat, q);
        let before = gate_stubs(w, base, ops, (n - 1) as nat);
        if before.stop is None {
            assert(feed_at(base, n - 1).1 == feed_at(base, 0).1);
            lemma_stub_takes(before, feed_at(base, n - 1), ops[n - 1], q);
        }
    }
}

/// The lanes of a gate own their entrances.
proof fn lemma_gate_owns(w: Works, base: Pos, ops: Seq<Sig>, n: nat, j: int)
    requires
        0 <= j < n <= ops.len() <= 0x01ff_ffff,
        0 <= base.0 <= 0x0400_0000,
        gate_stubs(w, base, ops, n).stop is None,
    ensures
        owns_at(gate_stubs(w, base, ops, n).board, ops[j], lane_entry(feed_at(base, j))),
    decreases n,
{
    let before = gate_stubs(w, base, ops, (n - 1) as nat);
    assert(before.stop is None);
    if j == n - 1 {
        lemma_stub_owns(before, feed_at(base, n - 1), ops[n - 1]);
    } else {
        lemma_gate_owns(w, base, ops, (n - 1) as nat, j);
        lemma_stub_takes(before, feed_at(base, n - 1), ops[n - 1], lane_entry(feed_at(base, j)));
    }
}

/// A cell on a level where signals come out is in no lane.
proof fn lemma_lanes_below(c: Chart, w: Works, f: Floor, n: nat, q: Pos)
    requires
        gates_level(f),
        q.1 as int % 6 == 0,
        n <= c.order.len(),
        all_within(f.base, 0x0400_0000),
    ensures
        same_at(w.board, stubs_laid(c, w, f.base, n).board, q),
    decreases n,
{
    if n > 0 {
        lemma_lanes_below(c, w, f, (n - 1) as nat, q);
        let before = stubs_laid(c, w, f.base, (n - 1) as nat);
        let g = c.order[n - 1];
        let ops = gate_operands(c.gates[g as int]);
        if f.base.contains_key(g) {
            assert(within(f.base[g], 0x0400_0000));
            assert(feed_at(f.base[g], 0).1 == f.base[g].1 + 1);
            lemma_gate_takes(before, f.base[g], ops, ops.len(), q);
        }
    }
}

/// The lanes of all gates own their entrances.
proof fn lemma_lanes_own(c: Chart, w: Works, f: Floor, n: nat, i: int, j: int)
    requires
        tidy(c, f),
        chart_ok(c),
        all_within(f.base, 0x0400_0000),
        0 <= i < n <= c.order.len(),
        c.gates[c.order[i] as int] is Nor,
        f.base.contains_key(c.order[i]),
        0 <= j < gate_operands(c.gates[c.order[i] as int]).len(),
        stubs_laid(c, w, f.base, n).stop is None,
    ensures
        owns_at(
            stubs_laid(c, w, f.base, n).board,
            gate_operands(c.gates[c.order[i] as int])[j],
            lane_entry(feed_at(f.base[c.order[i]], j)),
        ),
    decreases n,
{
    let before = stubs_laid(c, w, f.base, (n - 1) as nat);
    assert(before.stop is None);
    let g = c.order[i];
    let h = c.order[n - 1];
    assert(c.order[i] < c.gates.len() && c.order[n - 1] < c.gates.len());
    let ops = gate_operands(c.gates[h as int]);
    assert(gate_operands(c.gates[g as int]).len() <= 0x01ff_ffff);
    assert(gate_operands(c.gates[h as int]).len() <= 0x01ff_ffff);
    assert(within(f.base[g], 0x0400_0000));
    if i == n - 1 {
        lemma_gate_owns(before, f.base[g], ops, ops.len(), j);
    } else {
        lemma_lanes_own(c, w, f, (n - 1) as nat, i, j);
        assert(g != h);
        if c.gates[h as int] is Nor && f.base.contains_key(h) {
            assert(within(f.base[h], 0x0400_0000));
            let q = lane_entry(feed_at(f.base[g], j));
            assert(q.1 == f.base[g].1 + 1);
            assert(feed_at(f.base[h], 0).1 == f.base[h].1 + 1);
            if f.base[g].1 == f.base[h].1 {
                assert(columns_apart(c, f, g, h));
                assert forall|k: int| 0 <= k < ops.len() implies q.0 != (#[trigger] feed_at(f.base[h], k)).0 by {
                    assert(feed_at(f.base[h], k).0 == f.base[h].0 + 2 * k);
                    assert(q.0 == f.base[g].0 + 2 * j);
                }
            }
            lemma_gate_takes(before, f.base[h], ops, ops.len(), q);
        }
    }
}

// --- connections -------------------------------------------------------------------------------

/// A connection is that of a gate's input.
spec fn is_input(c: Chart, spine: Map<Sig, Seq<Pos>>, base: Map<Sig, Pos>, x: Conn, i: int, j: int) -> bool {
    let g = c.order[i];
    let ops = gate_operands(c.gates[g as int]);
    &&& 0 <= i < c.order.len()
    &&& c.gates[g as int] is Nor
    &&& base.contains_key(g)
    &&& 0 <= j < ops.len()
    &&& spine.contains_key(ops[j])
    &&& x == conn_of(base[g], g, j, ops[j], spine[ops[j]][0])
}

spec fn of_a_gate(c: Chart, spine: Map<Sig, Seq<Pos>>, base: Map<Sig, Pos>, x: Conn) -> bool {
    exists|i: int, j: int| is_input(c, spine, base, x, i, j)
}

spec fn all_inputs(c: Chart, spine: Map<Sig, Seq<Pos>>, base: Map<Sig, Pos>, work: Seq<Conn>) -> bool {
    forall|k: int| 0 <= k < work.len() ==> of_a_gate(c, spine, base, #[trigger] work[k])
}

proof fn lemma_with_conn_members(work: Seq<Conn>, x: Conn, k: int)
    requires
        0 <= k < with_conn(work, x).len(),
    ensures
        with_conn(work, x)[k] == x || work.contains(with_conn(work, x)[k]),
    decreases work.len(),
{
    let after = with_conn(work, x);
    if work.len() > 0 && crate::negotiate::goes_first(x, work.last()) {
        let inner = with_conn(work.drop_last(), x);
        if k < inner.len() {
            lemma_with_conn_members(work.drop_last(), x, k);
            if after[k] != x {
                let m = choose|m: int| 0 <= m < work.drop_last().len() && work.drop_last()[m] == after[k];
                assert(work[m] == after[k]);
            }
        } else {
            assert(after[k] == work[work.len() - 1]);
        }
    } else if k < work.len() {
        assert(after[k] == work[k]);
    }
}

proof fn lemma_gate_inputs(c: Chart, spine: Map<Sig, Seq<Pos>>, base: Map<Sig, Pos>, l: Listed, i: int, n: nat)
    requires
        all_inputs(c, spine, base, l.work),
        0 <= i < c.order.len(),
        c.gates[c.order[i] as int] is Nor,
        base.contains_key(c.order[i]),
        n <= gate_operands(c.gates[c.order[i] as int]).len(),
    ensures
        all_inputs(
            c,
            spine,
            base,
            gate_listed(l, spine, base[c.order[i]], c.order[i], gate_operands(c.gates[c.order[i] as int]), n).work,
        ),
    decreases n,
{
    if n > 0 {
        lemma_gate_inputs(c, spine, base, l, i, (n - 1) as nat);
        let g = c.order[i];
        let ops = gate_operands(c.gates[g as int]);
        let before = gate_listed(l, spine, base[g], g, ops, (n - 1) as nat);
        let after = gate_listed(l, spine, base[g], g, ops, n);
        if before.stop is None && spine.contains_key(ops[n - 1]) {
            let x = conn_of(base[g], g, n - 1, ops[n - 1], spine[ops[n - 1]][0]);
            assert(is_input(c, spine, base, x, i, n - 1));
            assert forall|k: int| 0 <= k < after.work.len() implies of_a_gate(
                c,
                spine,
                base,
                #[trigger] after.work[k],
            ) by {
                lemma_with_conn_members(before.work, x, k);
                if after.work[k] != x {
                    let m = choose|m: int| 0 <= m < before.work.len() && before.work[m] == after.work[k];
                    assert(of_a_gate(c, spine, base, before.work[m]));
                }
            }
        }
    }
}

proof fn lemma_all_inputs(c: Chart, spine: Map<Sig, Seq<Pos>>, base: Map<Sig, Pos>, n: nat)
    requires
        n <= c.order.len(),
    ensures
        all_inputs(c, spine, base, work_listed(c, spine, base, n).work),
    decreases n,
{
    if n > 0 {
        lemma_all_inputs(c, spine, base, (n - 1) as nat);
        let before = work_listed(c, spine, base, (n - 1) as nat);
        let g = c.order[n - 1];
        if before.stop is None && c.gates[g as int] is Nor && base.contains_key(g) {
            lemma_gate_inputs(c, spine, base, before, n - 1, gate_operands(c.gates[g as int]).len());
        }
    }
}

// --- flip-flops ----------------------------------------------------------------------------------

/// Laying a path takes nothing away.
proof fn lemma_nodes_keep(
    b: Board,
    cells: Map<Pos, Block>,
    net: NetId,
    path: Seq<Pos>,
    sites: Seq<int>,
    mat: Material,
    n: nat,
    p: Pos,
)
    ensures
        stays(cells, nodes_laid(b, cells, net, path, sites, mat, n).cells, p),
    decreases n,
{
    if n > 1 {
        lemma_nodes_keep(b, cells, net, path, sites, mat, (n - 1) as nat, p);
    }
}

/// Routing takes nothing away.
proof fn lemma_tried_keeps(w: Wanted, b: Board, cells: Map<Pos, Block>, last: Seq<char>, k: nat, p: Pos)
    ensures
        stays(cells, tried(w, b, cells, last, k).cells, p),
    decreases w.tuning.attempts - k,
{
    reveal(tried);
    if k < w.tuning.attempts {
        match searched(attempt(w, b, cells, k as int)) {
            Err(e) => {
                lemma_tried_keeps(w, b, cells, e, k + 1, p);
            },
            Ok(path) => match conflict_of(path) {
                Some(bad) => {
                    lemma_tried_keeps(w, barred(b, bad), cells, "path collides with itself"@, k + 1, p);
                },
                None => match repeaters_of(path, w.decay as int) {
                    Ok(sites) => {
                        lemma_nodes_keep(
                            unbarred(b),
                            cells,
                            w.net,
                            path,
                            sites,
                            w.material,
                            path.len(),
                            p,
                        );
                    },
                    Err(e) => {
                        if path.len() > 2 {
                            lemma_tried_keeps(w, barred(b, path[(path.len() / 2) as int]), cells, e, k + 1, p);
                        } else {
                            lemma_tried_keeps(w, b, cells, e, k + 1, p);
                        }
                    },
                },
            },
        }
    }
}

proof fn lemma_leg_keeps(
    t: Tuning,
    w: Works,
    bounds: (Pos, Pos),
    net: NetId,
    from: Pos,
    to: Pos,
    decay: i32,
    prefix: Seq<char>,
    p: Pos,
)
    ensures
        stays(w.cells, leg(t, w, bounds, net, from, to, decay, prefix).cells, p),
{
    reveal(leg);
    if w.stop is None {
        let want = leg_wanted(t, bounds, net, from, to, decay);
        let b = claimed_by(claimed_by(w.board, from, net), to, net);
        lemma_tried_keeps(want, aimed(b, want.sources, want.to), w.cells, "no attempt made"@, 0, p);
    }
}

/// A D latch takes nothing away, and its output is there.
proof fn lemma_latch_keeps(t: Tuning, cells: Map<Pos, Block>, base: Pos, p: Pos)
    ensures
        stays(cells, d_latch_built(t, cells, base).0, p),
        d_latch_built(t, cells, base).1 is None ==> !free(d_latch_built(t, cells, base).0, d_ports(base).q),
{
    reveal(d_latch_built);
    let stamped = d_stamped(cells, base);
    lemma_stamped_keeps(cells, base, p);
    if stamped.1 is None {
        let start = Works { board: d_board(stamped.0, base), cells: stamped.0, stop: None };
        let q = d_ports(base).q;
        lemma_wiring_keeps(t, start, base, p);
        lemma_wiring_keeps(t, start, base, q);
    }
}

proof fn lemma_stamped_keeps(cells: Map<Pos, Block>, base: Pos, p: Pos)
    ensures
        stays(cells, d_stamped(cells, base).0, p),
        d_stamped(cells, base).1 is None ==> !free(d_stamped(cells, base).0, d_ports(base).q),
{
    reveal(d_stamped);
    let five = built(cells, d_gates(base));
    let at = d_gate(base, 5);
    let q = d_ports(base).q;
    let pair = nor_steps(at, 2) + nor_steps(latch_b(at), 3);
    let two = built(five.0, pair);
    lemma_built_keeps(cells, d_gates(base), p);
    lemma_built_keeps(five.0, pair, p);
    lemma_linked_keeps(five.0, at, p);
    if five.1 is None && two.1 is None {
        assert(pair.last() == Step::Put(nor_out(latch_b(at)), dust()));
        assert(!free(two.0, q));
        lemma_linked_keeps(five.0, at, q);
    }
}

/// What stands when the two cells of an RS latch do, still stands when it is linked.
proof fn lemma_linked_keeps(cells: Map<Pos, Block>, base: Pos, p: Pos)
    ensures
        stays(
            built(cells, nor_steps(base, 2) + nor_steps(latch_b(base), 3)).0,
            latch_built(cells, base).0,
            p,
        ),
{
    let two = built(cells, nor_steps(base, 2) + nor_steps(latch_b(base), 3));
    if two.1 is None {
        let started = latch_started(two.0, base);
        assert(stays(two.0, started, p));
        let feed = nor_feeds(latch_b(base), 3)[0];
        let steps = link_steps(nor_out(base), feed, feed.1, None, Material::Gate);
        lemma_built_keeps(started, steps, p);
        let linked = built(started, steps);
        if linked.1 is None {
            assert(stays(linked.0, switched_on(started, linked.0), p));
            lemma_built_keeps(switched_on(started, linked.0), return_steps(base), p);
        }
    }
}

/// The wiring of a D latch takes nothing away.
proof fn lemma_wiring_keeps(t: Tuning, w: Works, base: Pos, p: Pos)
    ensures
        stays(w.cells, d_fans(t, works_on(d_wires(t, w, base), d_pads(base)), base).cells, p),
{
    reveal(d_wires);
    reveal(d_fans);
    let f = d_ports(base);
    let b = d_bounds(base);
    let s = nor_feeds(d_gate(base, 3), 2);
    let w1 = d_wire(t, w, base, 1, nor_out(d_gate(base, 2)), s[0]);
    lemma_leg_keeps(t, w, b, 1, nor_out(d_gate(base, 2)), s[0], 0, wire_prefix(1), p);
    let w2 = d_wire(t, w1, base, 2, nor_out(d_gate(base, 0)), s[1]);
    lemma_leg_keeps(t, w1, b, 2, nor_out(d_gate(base, 0)), s[1], 0, wire_prefix(2), p);
    let r = nor_feeds(d_gate(base, 4), 2)[1];
    let w3 = d_wire(t, w2, base, 3, nor_out(d_gate(base, 1)), r);
    lemma_leg_keeps(t, w2, b, 3, nor_out(d_gate(base, 1)), r, 0, wire_prefix(3), p);
    let w4 = d_wire(t, w3, base, 4, nor_out(d_gate(base, 3)), f.set_feed);
    lemma_leg_keeps(t, w3, b, 4, nor_out(d_gate(base, 3)), f.set_feed, 0, wire_prefix(4), p);
    let w5 = d_wire(t, w4, base, 5, nor_out(d_gate(base, 4)), f.reset_feed);
    lemma_leg_keeps(t, w4, b, 5, nor_out(d_gate(base, 4)), f.reset_feed, 0, wire_prefix(5), p);
    let v = works_on(w5, d_pads(base));
    lemma_built_keeps(w5.cells, d_pads(base), p);
    let d_hub = moved(base, 0, 1, -6);
    let en_hub = moved(base, 9, 1, -7);
    let clr_hub = moved(base, 18, 1, -7);
    let v1 = d_fan(t, v, base, 7, en_hub, f.en_a);
    lemma_leg_keeps(t, v, b, 7, en_hub, f.en_a, 4, port_prefix(7, f.en_a), p);
    let v2 = d_fan(t, v1, base, 10, en_hub, f.en_b);
    lemma_leg_keeps(t, v1, b, 10, en_hub, f.en_b, 4, port_prefix(10, f.en_b), p);
    let v3 = d_fan(t, v2, base, 6, d_hub, f.d_a);
    lemma_leg_keeps(t, v2, b, 6, d_hub, f.d_a, 4, port_prefix(6, f.d_a), p);
    let v4 = d_fan(t, v3, base, 9, d_hub, f.d_b);
    lemma_leg_keeps(t, v3, b, 9, d_hub, f.d_b, 4, port_prefix(9, f.d_b), p);
    lemma_leg_keeps(t, v4, b, 8, clr_hub, d_clear(base), 4, port_prefix(8, d_clear(base)), p);
}

/// A flip-flop takes nothing away, and its output is there.
proof fn lemma_flop_keeps(t: Tuning, cells: Map<Pos, Block>, base: Pos, p: Pos)
    ensures
        stays(cells, dff_built(t, cells, base).0, p),
        stays(d_latch_built(t, cells, base).0, dff_built(t, cells, base).0, p),
        dff_built(t, cells, base).1 is None ==> !free(
            dff_built(t, cells, base).0,
            d_ports(dff_slave(t, cells, base)).q,
        ),
{
    let master = d_latch_built(t, cells, base);
    lemma_latch_keeps(t, cells, base, p);
    if master.1 is None {
        let at = dff_slave(t, cells, base);
        let slave = d_latch_built(t, master.0, at);
        lemma_latch_keeps(t, master.0, at, p);
        if slave.1 is None {
            let w = Works { board: crate::route::board_from(slave.0), cells: slave.0, stop: None };
            let b = dff_bounds(slave.0, base);
            let q = d_ports(at).q;
            lemma_leg_keeps(t, w, b, 11, d_ports(base).q, d_ports(at).d, 0, "dff master->slave: "@, q);
            lemma_leg_keeps(t, w, b, 11, d_ports(base).q, d_ports(at).d, 0, "dff master->slave: "@, p);
        }
    }
}

proof fn lemma_furthest(cells: Map<Pos, Block>, p: Pos, z: int)
    requires
        cells.contains_key(p),
        i32::MIN <= z <= i32::MAX,
        forall|q: Pos| #[trigger] cells.contains_key(q) ==> q.2 <= z,
    ensures
        exists|y: i32| is_far_z(cells, y),
    decreases z - p.2,
{
    if exists|q: Pos| #[trigger] cells.contains_key(q) && q.2 == z {
        assert(is_far_z(cells, z as i32));
    } else {
        assert(p.2 != z);
        lemma_furthest(cells, p, z - 1);
    }
}

/// Nothing that stands when a flip-flop is begun reaches as far as its output.
proof fn lemma_output_behind(t: Tuning, cells: Map<Pos, Block>, base: Pos, p: Pos)
    requires
        !free(cells, p),
        within(dff_slave(t, cells, base), 0x0880_0000),
        spans(dff_built(t, cells, base).0, 0x0900_0000),
    ensures
        d_ports(dff_slave(t, cells, base)).q.2 > p.2,
        d_ports(dff_slave(t, cells, base)).q.1 == base.1,
{
    let master = d_latch_built(t, cells, base).0;
    lemma_latch_keeps(t, cells, base, p);
    assert(master.contains_key(p));
    lemma_furthest(master, p, i32::MAX as int);
    let z = far_z(master, base.2);
    assert(is_far_z(master, z));
    assert(p.2 <= z);
    let far = choose|far: Pos| #[trigger] master.contains_key(far) && far.2 == z;
    lemma_flop_keeps(t, cells, base, far);
    assert(dff_built(t, cells, base).0.contains_key(far));
}

/// The flip-flops so far stand clear of each other and of what stood before.
spec fn bank_tidy(cells: Map<Pos, Block>, b: Bank, y: int) -> bool {
    &&& forall|p: Pos| !free(cells, p) ==> !#[trigger] free(b.cells, p)
    &&& forall|i: int|
        0 <= i < b.flops.len() ==> {
            let q = d_ports((#[trigger] b.flops[i]).1).q;
            &&& !free(b.cells, q)
            &&& free(cells, q)
            &&& q.1 == y
        }
    &&& forall|i: int, j: int|
        0 <= i < j < b.flops.len() ==> d_ports((#[trigger] b.flops[i]).1).q != d_ports(
            (#[trigger] b.flops[j]).1,
        ).q
}

proof fn lemma_bank_tidy(t: Tuning, edge: int, cells: Map<Pos, Block>, base: Pos, n: nat, k: nat)
    requires
        bank_built(t, edge, cells, base, n, k).stop is None,
        flops_within(bank_built(t, edge, cells, base, n, k).flops, 0x0880_0000),
        spans(bank_built(t, edge, cells, base, n, k).cells, 0x0900_0000),
        base.1 == 6,
    ensures
        bank_tidy(cells, bank_built(t, edge, cells, base, n, k), 6),
        bank_built(t, edge, cells, base, n, k).flops.len() == k,
    decreases k,
{
    if k > 0 {
        let before = bank_built(t, edge, cells, base, n, (k - 1) as nat);
        let after = bank_built(t, edge, cells, base, n, k);
        let at = flop_base(base, n, k - 1);
        let slave = dff_slave(t, before.cells, at);
        assert(after.flops == before.flops.push((at, slave)));
        assert forall|i: int| 0 <= i < before.flops.len() implies within(
            (#[trigger] before.flops[i]).0,
            0x0880_0000,
        ) && within(before.flops[i].1, 0x0880_0000) by {
            assert(after.flops[i] == before.flops[i]);
        }
        assert forall|p: Pos| #[trigger] before.cells.contains_key(p) implies within(
            p,
            0x0900_0000,
        ) by {
            lemma_flop_keeps(t, before.cells, at, p);
            assert(after.cells.contains_key(p));
        }
        lemma_bank_tidy(t, edge, cells, base, n, (k - 1) as nat);
        assert(after.flops[k - 1] == (at, slave));
        assert(within(slave, 0x0880_0000));
        let q = d_ports(slave).q;
        lemma_flop_keeps(t, before.cells, at, q);
        assert forall|p: Pos| !free(cells, p) implies !#[trigger] free(after.cells, p) by {
            assert(!free(before.cells, p));
            lemma_flop_keeps(t, before.cells, at, p);
        }
        assert forall|i: int| 0 <= i < after.flops.len() implies ({
            let q = d_ports((#[trigger] after.flops[i]).1).q;
            &&& !free(after.cells, q)
            &&& free(cells, q)
            &&& q.1 == 6
        }) by {
            if i < k - 1 {
                assert(after.flops[i] == before.flops[i]);
                lemma_flop_keeps(t, before.cells, at, d_ports(before.flops[i].1).q);
            } else {
                if !free(cells, q) {
                    assert(!free(before.cells, q));
                    lemma_output_behind(t, before.cells, at, q);
                }
                assert(q.1 == slave.1);
            }
        }
        assert forall|i: int, j: int| 0 <= i < j < after.flops.len() implies d_ports(
            (#[trigger] after.flops[i]).1,
        ).q != d_ports((#[trigger] after.flops[j]).1).q by {
            assert(after.flops[i] == before.flops[i]);
            if j < k - 1 {
                assert(after.flops[j] == before.flops[j]);
            } else {
                lemma_output_behind(t, before.cells, at, d_ports(before.flops[i].1).q);
            }
        }
    }
}

/// Where the outputs come out: where they did on the floor before, or at a flip-flop.
spec fn q_traced(gates: Seq<Gate>, flops: Seq<(Pos, Pos)>, before: Floor, f: Floor, k: int) -> bool {
    forall|s: Sig| #[trigger]
        f.at.contains_key(s) ==> {
            ||| before.at.contains_key(s) && f.at[s] == before.at[s]
            ||| exists|i: int| 0 <= i < k && s == q_of(gates, i) && f.at[s] == d_ports((#[trigger] flops[i]).1).q
        }
}

proof fn lemma_q_traced(gates: Seq<Gate>, flops: Seq<(Pos, Pos)>, f: Floor, k: nat)
    requires
        k <= flops.len(),
        q_sources(gates, flops, f, k).stop is None,
    ensures
        ({
            let after = q_sources(gates, flops, f, k);
            &&& q_traced(gates, flops, f, after, k as int)
            &&& after.cells == f.cells
            &&& after.base == f.base
            &&& f.stop is None
        }),
    decreases k,
{
    if k > 0 {
        lemma_q_traced(gates, flops, f, (k - 1) as nat);
        let before = q_sources(gates, flops, f, (k - 1) as nat);
        let after = q_sources(gates, flops, f, k);
        assert forall|s: Sig| #[trigger] after.at.contains_key(s) implies ({
            ||| f.at.contains_key(s) && after.at[s] == f.at[s]
            ||| exists|i: int| 0 <= i < k && s == q_of(gates, i) && after.at[s] == d_ports(
                (#[trigger] flops[i]).1,
            ).q
        }) by {
            if s == q_of(gates, k - 1) {
                assert(after.at[s] == d_ports(flops[k - 1].1).q);
            } else {
                assert(before.at.contains_key(s));
            }
        }
    }
}

/// The levers and the register bank of a draft.
pub open spec fn bank_of(t: Tuning, d: Draft) -> Banked {
    let c = d.chart;
    let row = leaves(c, c.gates.len());
    banked(t, c.gates, levers_placed(c, row, row.len()), d.ds.len())
}

/// A floor with a register bank is tidy.
proof fn lemma_bank_floor_tidy(t: Tuning, c: Chart, f: Floor, m: int, n: nat)
    requires
        tidy(c, f),
        levers_in_row(f, m),
        f.stop is None,
        banked(t, c.gates, f, n).floor.stop is None,
        spans(banked(t, c.gates, f, n).floor.cells, 0x0900_0000),
        flops_within(banked(t, c.gates, f, n).flops, 0x0880_0000),
    ensures
        tidy(c, banked(t, c.gates, f, n).floor),
        row_so_far(c, banked(t, c.gates, f, n).floor, 0, 0x0400_0000),
{
    let after = banked(t, c.gates, f, n).floor;
    if n > 0 {
        let b = bank_built(t, FLOOR_EDGE as int, f.cells, bank_base(t, n), n, n);
        let steps = ctrl_steps(0) + ctrl_steps(1) + ctrl_steps(2);
        let levers = built(b.cells, steps);
        let g = Floor { cells: levers.0, ..f };
        assert(b.stop is None && levers.1 is None);
        assert(bank_built(t, FLOOR_EDGE as int, f.cells, bank_base(t, n), n, n).flops == banked(t, c.gates, f, n).flops);
        lemma_bank_length(t, FLOOR_EDGE as int, f.cells, bank_base(t, n), n, n);
        lemma_q_traced(c.gates, b.flops, g, n);
        assert forall|p: Pos| #[trigger] b.cells.contains_key(p) implies within(p, 0x0900_0000) by {
            lemma_built_keeps(b.cells, steps, p);
            assert(after.cells.contains_key(p));
        }
        lemma_bank_tidy(t, FLOOR_EDGE as int, f.cells, bank_base(t, n), n, n);
        assert forall|s: Sig| #[trigger] after.at.contains_key(s) implies !free(after.cells, after.at[s])
            && after.at[s].1 == 6 by {
            if f.at.contains_key(s) && after.at[s] == f.at[s] {
                assert(!free(b.cells, f.at[s]));
                lemma_built_keeps(b.cells, steps, f.at[s]);
            } else {
                let i = choose|i: int|
                    0 <= i < n && s == q_of(c.gates, i) && after.at[s] == d_ports((#[trigger] b.flops[i]).1).q;
                lemma_built_keeps(b.cells, steps, d_ports(b.flops[i].1).q);
            }
        }
        assert forall|s: Sig, u: Sig|
            #![trigger after.at.contains_key(s), after.at.contains_key(u)]
            after.at.contains_key(s) && after.at.contains_key(u) && s != u implies after.at[s] != after.at[u] by {
            lemma_sources_differ(t, c, f, n, b, after, s, u);
        }
    }
    assert forall|s: Sig| #[trigger] after.at.contains_key(s) implies after.at[s].1 as int % 6 == 0 by {
        assert(after.at[s].1 == 6);
    }
}

proof fn lemma_bank_length(t: Tuning, edge: int, cells: Map<Pos, Block>, base: Pos, n: nat, k: nat)
    requires
        bank_built(t, edge, cells, base, n, k).stop is None,
    ensures
        bank_built(t, edge, cells, base, n, k).flops.len() == k,
    decreases k,
{
    if k > 0 {
        lemma_bank_length(t, edge, cells, base, n, (k - 1) as nat);
    }
}

/// Two sources come out at different places.
proof fn lemma_sources_differ(t: Tuning, c: Chart, f: Floor, n: nat, b: Bank, after: Floor, s: Sig, u: Sig)
    requires
        outputs_solid(f),
        outputs_differ(f),
        bank_tidy(f.cells, b, 6),
        b.flops.len() == n,
        q_traced(c.gates, b.flops, f, after, n as int),
        after.at.contains_key(s),
        after.at.contains_key(u),
        s != u,
    ensures
        after.at[s] != after.at[u],
{
    let by_lever = f.at.contains_key(s) && after.at[s] == f.at[s];
    let by_lever2 = f.at.contains_key(u) && after.at[u] == f.at[u];
    if by_lever && by_lever2 {
    } else if by_lever {
        let j = choose|j: int|
            0 <= j < n && u == q_of(c.gates, j) && after.at[u] == d_ports((#[trigger] b.flops[j]).1).q;
        assert(free(f.cells, d_ports(b.flops[j].1).q));
    } else if by_lever2 {
        let i = choose|i: int|
            0 <= i < n && s == q_of(c.gates, i) && after.at[s] == d_ports((#[trigger] b.flops[i]).1).q;
        assert(free(f.cells, d_ports(b.flops[i].1).q));
    } else {
        let i = choose|i: int|
            0 <= i < n && s == q_of(c.gates, i) && after.at[s] == d_ports((#[trigger] b.flops[i]).1).q;
        let j = choose|j: int|
            0 <= j < n && u == q_of(c.gates, j) && after.at[u] == d_ports((#[trigger] b.flops[j]).1).q;
        if i < j {
            assert(d_ports(b.flops[i].1).q != d_ports(b.flops[j].1).q);
        } else {
            assert(j < i);
            assert(d_ports(b.flops[j].1).q != d_ports(b.flops[i].1).q);
        }
    }
}

/// The floor of a draft is tidy.
proof fn lemma_floor_tidy(t: Tuning, d: Draft)
    requires
        chart_ok(d.chart),
        floor_of(t, d).floor.stop is None,
        spans(bank_of(t, d).floor.cells, 0x0900_0000),
        flops_within(bank_of(t, d).flops, 0x0880_0000),
    ensures
        tidy(d.chart, floor_of(t, d).floor),
{
    reveal(floor_of);
    let c = d.chart;
    let row = leaves(c, c.gates.len());
    lemma_leaf_count(c, c.gates.len());
    lemma_levers_tidy(c, row, row.len());
    let levers = levers_placed(c, row, row.len());
    assert(levers.stop is None);
    let b = bank_of(t, d);
    assert(b.floor.stop is None);
    lemma_bank_floor_tidy(t, c, levers, row.len() as int, d.ds.len());
    lemma_rows_tidy(c, b.floor, deepest(c, c.order.len()));
}

// --- the law -----------------------------------------------------------------------------------

proof fn lemma_shells_take(b: Board, base: Map<Sig, Pos>, bits: Seq<Sig>, n: nat, q: Pos)
    ensures
        same_at(b, shells_kept(b, base, bits, n), q),
    decreases n,
{
    if n > 0 {
        lemma_shells_take(b, base, bits, (n - 1) as nat, q);
    }
}

/// Every connection of a layout owns its ends before any routing: no lane and no spine
/// takes a cell of another net.
pub proof fn lemma_ends_owned(t: Tuning, d: Draft)
    requires
        chart_ok(d.chart),
        floor_of(t, d).floor.stop is None,
        in_range(floor_of(t, d).floor),
        spans(bank_of(t, d).floor.cells, 0x0900_0000),
        flops_within(bank_of(t, d).flops, 0x0880_0000),
        with_lanes(d, floor_of(t, d).floor).stop is None,
    ensures
        ends_owned(nets_of(t, d, floor_of(t, d).floor), with_lanes(d, floor_of(t, d).floor).board),
{
    let c = d.chart;
    let f = floor_of(t, d).floor;
    lemma_floor_tidy(t, d);
    reveal(with_spines);
    reveal(with_lanes);
    let w0 = with_lamps(d, f);
    let s = with_spines(d, f);
    let n = nets_of(t, d, f);
    let bits = all_bits(d);
    assert(w0.stop is None);
    assert forall|x: Sig| #[trigger] f.at.contains_key(x) implies !free(w0.cells, f.at[x])
        && within(f.at[x], 0x0900_0000) by {
        lemma_built_keeps(f.cells, lamp_steps(f.base, bits, bits.len()), f.at[x]);
    }
    lemma_spines_own(c, w0, f.at, c.gates.len());
    let shielded = Works { board: shells_kept(s.works.board, f.base, bits, bits.len()), ..s.works };
    let lanes = stubs_laid(c, shielded, f.base, c.order.len());
    assert(lanes == with_lanes(d, f));
    lemma_all_inputs(c, s.spine, f.base, c.order.len());
    assert forall|k: int| 0 <= k < n.work.len() implies owns(
        lanes.board,
        (#[trigger] n.work[k]).src,
        n.spine[n.work[k].src],
    ) && owns(lanes.board, n.work[k].src, seq![n.work[k].feed]) by {
        let x = n.work[k];
        assert(of_a_gate(c, s.spine, f.base, n.work[k]));
        let (i, j) = choose|i: int, j: int| is_input(c, s.spine, f.base, x, i, j);
        assert(is_input(c, s.spine, f.base, x, i, j));
        lemma_lanes_own(c, shielded, f, c.order.len(), i, j);
        assert forall|m: int| 0 <= m < n.spine[x.src].len() implies lanes.board.owner.contains_key(
            #[trigger] n.spine[x.src][m],
        ) && lanes.board.owner[n.spine[x.src][m]] == x.src && lanes.board.claimed.contains(
            n.spine[x.src][m],
        ) by {
            let q = n.spine[x.src][m];
            assert(s.spine[x.src][m] == q);
            assert(f.at.contains_key(x.src));
            lemma_shells_take(s.works.board, f.base, bits, bits.len(), q);
            lemma_lanes_below(c, shielded, f, c.order.len(), q);
        }
        assert(seq![x.feed][0] == x.feed);
    }
}

/// Before any routing every signal owns the cells of its spine, the one it comes out at among
/// them.
pub proof fn lemma_spines_owned(t: Tuning, d: Draft)
    requires
        chart_ok(d.chart),
        floor_of(t, d).floor.stop is None,
        in_range(floor_of(t, d).floor),
        spans(bank_of(t, d).floor.cells, 0x0900_0000),
        flops_within(bank_of(t, d).flops, 0x0880_0000),
        with_lanes(d, floor_of(t, d).floor).stop is None,
    ensures
        ({
            let f = floor_of(t, d).floor;
            let spine = with_spines(d, f).spine;
            &&& forall|x: Sig| #[trigger]
                f.at.contains_key(x) && x < d.chart.gates.len() ==> spine.contains_key(x) && spine[x].contains(f.at[x])
            &&& forall|x: Sig| #[trigger]
                spine.contains_key(x) ==> owns(with_lanes(d, f).board, x, spine[x])
        }),
{
    let c = d.chart;
    let f = floor_of(t, d).floor;
    lemma_floor_tidy(t, d);
    reveal(with_spines);
    reveal(with_lanes);
    let w0 = with_lamps(d, f);
    let s = with_spines(d, f);
    let bits = all_bits(d);
    assert(w0.stop is None);
    assert forall|x: Sig| #[trigger] f.at.contains_key(x) implies !free(w0.cells, f.at[x])
        && within(f.at[x], 0x0900_0000) by {
        lemma_built_keeps(f.cells, lamp_steps(f.base, bits, bits.len()), f.at[x]);
    }
    lemma_spines_own(c, w0, f.at, c.gates.len());
    let shielded = Works { board: shells_kept(s.works.board, f.base, bits, bits.len()), ..s.works };
    let lanes = stubs_laid(c, shielded, f.base, c.order.len());
    assert(lanes == with_lanes(d, f));
    assert forall|x: Sig| #[trigger] s.spine.contains_key(x) implies owns(lanes.board, x, s.spine[x]) by {
        assert forall|m: int| 0 <= m < s.spine[x].len() implies lanes.board.owner.contains_key(
            #[trigger] s.spine[x][m],
        ) && lanes.board.owner[s.spine[x][m]] == x && lanes.board.claimed.contains(s.spine[x][m]) by {
            let q = s.spine[x][m];
            assert(f.at.contains_key(x));
            lemma_shells_take(s.works.board, f.base, bits, bits.len(), q);
            lemma_lanes_below(c, shielded, f, c.order.len(), q);
        }
    }
    assert forall|x: Sig| #[trigger] f.at.contains_key(x) && x < c.gates.len() implies s.spine.contains_key(x)
        && s.spine[x].contains(f.at[x]) by {
        lemma_spine_starts(c, w0, f.at, c.gates.len(), x);
    }
}

proof fn lemma_spine_starts(c: Chart, w: Works, at: Map<Sig, Pos>, n: nat, x: Sig)
    requires
        at.contains_key(x),
        x < n,
    ensures
        spines_laid(c, w, at, n).spine.contains_key(x),
        spines_laid(c, w, at, n).spine[x].contains(at[x]),
    decreases n,
{
    let s = (n - 1) as u32;
    if x < n - 1 {
        lemma_spine_starts(c, w, at, (n - 1) as nat, x);
    }
    let want = spine_wanted(readers(c, s, c.order.len()));
    lemma_spine_first(spines_laid(c, w, at, (n - 1) as nat).works, s, at[s], want);
}

proof fn lemma_spine_first(w: Works, net: NetId, out: Pos, t: nat)
    ensures
        spine_laid(w, net, out, 1, Material::Wire, Dir::North, t).cells.len() > 0,
        spine_laid(w, net, out, 1, Material::Wire, Dir::North, t).cells[0] == out,
        spine_laid(w, net, out, 1, Material::Wire, Dir::North, t).cells.contains(out),
    decreases t,
{
    if t > 0 {
        lemma_spine_first(w, net, out, (t - 1) as nat);
    }
    let cells = spine_laid(w, net, out, 1, Material::Wire, Dir::North, t).cells;
    assert(cells[0] == out);
}

} // verus!
