//! No shorts: however nets are routed, ripped up and routed again, wires of
//! two of them never join.
use crate::deep::within;
use crate::floorplan::{Chart, Floor};
use crate::clocking::lamp_pads;
use crate::layout::{
    all_bits, floor_of, laid_out, nets_of, with_inputs, with_lamps, with_lanes, with_spines, Draft,
};
use crate::negotiate::{
    all_waiting, clear_site, cleared, conn_chain, conn_hops, conn_tried, is_over, net_line, nets_ok,
    relay_near, relay_text, share, stalled, turn, turned, victims_max, victims_of, Conn, Nets,
    Queue,
};
use crate::relay::{
    asked, ended, first_site, hopped, line_ok, relay_set, relay_stamped, site_near, sources_ok,
    Chain, Line,
};
use crate::route::{
    board_ok, can_route, claimed_by, claims_kept, ends_claimed, is_fixed, joins,
    lemma_claim_keeps_apart, lemma_rip_keeps_apart, lemma_route_keeps_apart,
    lemma_route_keeps_claims, net_routed, nets_apart, owned_by_other, relay_clear, relay_in,
    relay_out, ripped, routed_apart, steps_from, Board, NetId, Tuning, Works,
};
use crate::netlist::{gate_operands, Sig};
use crate::tech::moved;
use crate::wiring::{
    feed_at, gate_stubs, lane_cell, lane_laid, readers, shells_kept, spine_laid, spine_wanted,
    spines_laid, stubs_laid,
};
use crate::world::{interior, Block, Dir, Material, Pos};
use vstd::prelude::*;

verus! {

/// The cells are the net's own, to attach to.
pub open spec fn owns(b: Board, net: NetId, cells: Seq<Pos>) -> bool {
    forall|i: int|
        0 <= i < cells.len() ==> b.owner.contains_key(#[trigger] cells[i]) && b.owner[cells[i]] == net
            && b.claimed.contains(cells[i])
}

/// Every connection owns its ends: the spine of its driver, and its feed.
pub open spec fn ends_owned(n: Nets, b: Board) -> bool {
    forall|i: int|
        0 <= i < n.work.len() ==> owns(b, (#[trigger] n.work[i]).src, n.spine[n.work[i].src]) && owns(
            b,
            n.work[i].src,
            seq![n.work[i].feed],
        )
}

/// A board without shorts, which routing can go on with.
pub open spec fn sound_board(b: Board) -> bool {
    nets_apart(b) && board_ok(b)
}

proof fn lemma_owns_kept(b: Board, after: Board, net: NetId, cells: Seq<Pos>)
    requires
        owns(b, net, cells),
        claims_kept(b, after),
    ensures
        owns(after, net, cells),
{
    assert forall|i: int| 0 <= i < cells.len() implies after.owner.contains_key(#[trigger] cells[i])
        && after.owner[cells[i]] == net && after.claimed.contains(cells[i]) by {
        assert(b.claimed.contains(cells[i]));
    }
}

proof fn lemma_kept_trans(a: Board, b: Board, c: Board)
    requires
        claims_kept(a, b),
        claims_kept(b, c),
    ensures
        claims_kept(a, c),
{
    assert forall|p: Pos|
        #![trigger a.claimed.contains(p)]
        a.claimed.contains(p) && a.owner.contains_key(p) implies c.claimed.contains(p)
        && c.owner.contains_key(p) && c.owner[p] == a.owner[p] by {
        assert(b.claimed.contains(p));
    }
}

/// A place that was found is clear, and near.
proof fn lemma_first_site(b: Board, cells: Map<Pos, Block>, near: Pos, net: NetId, k: nat)
    requires
        within(near, 0x0aff_e000),
    ensures
        match first_site(b, cells, near, net, k) {
            Some(p) => relay_clear(b, cells, p, net) && within(p, 0x0aff_f000),
            None => true,
        },
    decreases 2640 - k,
{
    if k < 2640 {
        if relay_clear(b, cells, site_near(near, false, k as int), net) {
            let d = crate::relay::sideways()[k as int % 11];
            let e = crate::relay::upwards()[(k as int % 55) / 11];
            assert(-12 <= d <= 12);
            assert(-3 <= e <= 3);
        } else {
            lemma_first_site(b, cells, near, net, k + 1);
        }
    }
}

/// A relay in a clear place touches no other net.
proof fn lemma_relay_apart(w: Works, net: NetId, site: Pos)
    requires
        sound_board(w.board),
        relay_clear(w.board, w.cells, site, net),
        within(site, 0x0aff_f000),
    ensures
        ({
            let s = relay_set(w, net, site);
            &&& sound_board(s.board)
            &&& claims_kept(w.board, s.board)
            &&& s.stop is None ==> owns(s.board, net, seq![relay_in(site)]) && owns(
                s.board,
                net,
                seq![relay_out(site)],
            )
        }),
{
    let s = relay_set(w, net, site);
    if relay_stamped(w.cells, site).1 is None {
        let b = w.board;
        let i = relay_in(site);
        let o = relay_out(site);
        let b1 = claimed_by(b, i, net);
        let b2 = claimed_by(b1, o, net);
        assert forall|k: int| 0 <= k < 12 implies !owned_by_other(b, (#[trigger] steps_from(i)[k]).0, net) by {
            assert(crate::route::may_join(b, steps_from(i)[k].0, net));
        }
        lemma_claim_keeps_apart(b, i, net);
        assert forall|k: int| 0 <= k < 12 implies !owned_by_other(b1, (#[trigger] steps_from(o)[k]).0, net) by {
            assert(crate::route::may_join(b, steps_from(o)[k].0, net));
        }
        lemma_claim_keeps_apart(b1, o, net);
        lemma_kept_trans(b, b1, b2);
        assert forall|x: Pos, y: Pos|
            interior(x) && interior(y) && s.board.owner.contains_key(x) && s.board.owner.contains_key(y)
                && s.board.owner[x] != s.board.owner[y] && #[trigger] joins(x, y) implies is_fixed(
            s.board,
            x,
        ) && is_fixed(s.board, y) by {
            assert(joins(x, y) && b2.owner == s.board.owner);
            assert(is_fixed(b2, x) && is_fixed(b2, y));
        }
        assert forall|p: Pos|
            #![trigger b.claimed.contains(p)]
            b.claimed.contains(p) && b.owner.contains_key(p) implies s.board.claimed.contains(p)
            && s.board.owner.contains_key(p) && s.board.owner[p] == b.owner[p] by {
            assert(b2.claimed.contains(p));
        }
    }
}

/// A chain without shorts: it leaves from cells of its own.
spec fn sound_chain(c: Chain, start: Board, net: NetId) -> bool {
    &&& sound_board(c.works.board)
    &&& claims_kept(start, c.works.board)
    &&& !ended(c) ==> owns(c.works.board, net, c.from) && sources_ok(c.from)
}

proof fn lemma_route_sound(l: Line, w: Works, from: Seq<Pos>, to: Pos, carry: i32)
    requires
        line_ok(l),
        sound_board(w.board),
        owns(w.board, l.net, from),
        owns(w.board, l.net, seq![to]),
        sources_ok(from),
        within(to, 0x0b00_0000),
    ensures
        ({
            let r = net_routed(asked(l, from, to, carry), w.board, w.cells);
            sound_board(r.board) && claims_kept(w.board, r.board)
        }),
{
    let want = asked(l, from, to, carry);
    assert(seq![to][0] == to);
    assert(can_route(want));
    assert(ends_claimed(want, w.board));
    lemma_route_keeps_apart(want, w.board, w.cells);
    lemma_route_keeps_claims(want, w.board, w.cells);
}

proof fn lemma_hop_sound(l: Line, c: Chain, site: Pos, prefix: Seq<char>, start: Board)
    requires
        line_ok(l),
        sound_chain(c, start, l.net),
        !ended(c),
        relay_clear(c.works.board, c.works.cells, site, l.net),
        within(site, 0x0aff_f000),
    ensures
        sound_chain(hopped(l, c, site, prefix), start, l.net),
{
    reveal(hopped);
    lemma_relay_apart(c.works, l.net, site);
    let set = relay_set(c.works, l.net, site);
    lemma_kept_trans(start, c.works.board, set.board);
    if set.stop is None {
        lemma_owns_kept(c.works.board, set.board, l.net, c.from);
        lemma_route_sound(l, set, c.from, relay_in(site), c.carry);
        let r = net_routed(asked(l, c.from, relay_in(site), c.carry), set.board, set.cells);
        lemma_kept_trans(start, set.board, r.board);
        lemma_owns_kept(set.board, r.board, l.net, seq![relay_out(site)]);
    }
}

/// The relays of a connection are within range.
proof fn lemma_relay_near(first: Pos, feed: Pos, band: int, stage: int)
    requires
        within(first, 0x0980_0000),
        within(feed, 0x0880_0000),
        0 <= band < 6,
        0 <= stage <= conn_hops(first, feed),
    ensures
        within(relay_near(first, feed, band, stage), 0x0aff_e000),
{
    reveal(relay_near);
    let n = conn_hops(first, feed);
    assert(n >= 1);
    crate::negotiate::lemma_drop(first.1 - feed.1, stage, n);
    crate::relay::lemma_part_way(first.0 as int, feed.0 as int, stage, n);
}

proof fn lemma_chain_sound(l: Line, w: Works, sources: Seq<Pos>, c: Conn, band: int, n: nat)
    requires
        line_ok(l),
        l.net == c.src,
        sound_board(w.board),
        w.stop is None,
        owns(w.board, l.net, sources),
        sources_ok(sources),
        within(sources[0], 0x0980_0000),
        within(c.feed, 0x0880_0000),
        0 <= band < 6,
        n < conn_hops(sources[0], c.feed),
    ensures
        sound_chain(conn_chain(l, w, sources, c, band, n), w.board, l.net),
    decreases n,
{
    if n > 0 {
        lemma_chain_sound(l, w, sources, c, band, (n - 1) as nat);
        let before = conn_chain(l, w, sources, c, band, (n - 1) as nat);
        if !ended(before) {
            let near = relay_near(sources[0], c.feed, band, n as int);
            lemma_relay_near(sources[0], c.feed, band, n as int);
            reveal(clear_site);
            lemma_first_site(before.works.board, before.works.cells, near, l.net, 0);
            match clear_site(before.works.board, before.works.cells, near, l.net) {
                None => {},
                Some(site) => {
                    lemma_hop_sound(l, before, site, relay_text(n as int, c), w.board);
                },
            }
        }
    }
}

proof fn lemma_conn_sound(l: Line, w: Works, sources: Seq<Pos>, c: Conn, band: int)
    requires
        line_ok(l),
        l.net == c.src,
        sound_board(w.board),
        w.stop is None,
        owns(w.board, l.net, sources),
        owns(w.board, l.net, seq![c.feed]),
        sources_ok(sources),
        within(sources[0], 0x0980_0000),
        within(c.feed, 0x0880_0000),
        0 <= band < 6,
    ensures
        ({
            let t = conn_tried(l, w, sources, c, band);
            sound_board(t.works.board) && claims_kept(w.board, t.works.board)
        }),
{
    reveal(conn_tried);
    let hops = conn_hops(sources[0], c.feed);
    assert(hops >= 1);
    lemma_chain_sound(l, w, sources, c, band, (hops - 1) as nat);
    let ch = conn_chain(l, w, sources, c, band, (hops - 1) as nat);
    if !ended(ch) {
        lemma_owns_kept(w.board, ch.works.board, l.net, seq![c.feed]);
        lemma_route_sound(l, ch.works, ch.from, c.feed, ch.carry);
        let r = net_routed(asked(l, ch.from, c.feed, ch.carry), ch.works.board, ch.works.cells);
        lemma_kept_trans(w.board, ch.works.board, r.board);
    }
}

/// The nets can be routed, and their spines are within range.
pub open spec fn nets_sound(n: Nets) -> bool {
    &&& nets_ok(n)
    &&& forall|i: int|
        0 <= i < n.work.len() ==> sources_ok(n.spine[(#[trigger] n.work[i]).src]) && within(
            n.spine[n.work[i].src][0],
            0x0980_0000,
        )
}

/// A queue without shorts, whose connections own their ends.
pub open spec fn queue_sound(n: Nets, q: Queue) -> bool {
    &&& sound_board(q.works.board)
    &&& ends_owned(n, q.works.board)
    &&& 0 <= q.band < 6
    &&& forall|i: int| 0 <= i < q.waiting.len() ==> 0 <= #[trigger] q.waiting[i] < n.work.len()
    &&& forall|i: int| 0 <= i < q.done.len() ==> 0 <= #[trigger] q.done[i] < n.work.len()
}

proof fn lemma_ends_kept(n: Nets, b: Board, after: Board)
    requires
        ends_owned(n, b),
        claims_kept(b, after),
    ensures
        ends_owned(n, after),
{
    assert forall|i: int| 0 <= i < n.work.len() implies owns(
        after,
        (#[trigger] n.work[i]).src,
        n.spine[n.work[i].src],
    ) && owns(after, n.work[i].src, seq![n.work[i].feed]) by {
        lemma_owns_kept(b, after, n.work[i].src, n.spine[n.work[i].src]);
        lemma_owns_kept(b, after, n.work[i].src, seq![n.work[i].feed]);
    }
}

proof fn lemma_share(work: Seq<Conn>, done: Seq<int>, net: NetId, own: bool, k: nat, m: int)
    requires
        k <= done.len(),
        forall|i: int| 0 <= i < done.len() ==> 0 <= #[trigger] done[i] < m,
    ensures
        forall|i: int|
            0 <= i < share(work, done, net, own, k).len() ==> 0 <= #[trigger] share(work, done, net, own, k)[i] < m,
    decreases k,
{
    if k > 0 {
        lemma_share(work, done, net, own, (k - 1) as nat, m);
        let before = share(work, done, net, own, (k - 1) as nat);
        let after = share(work, done, net, own, k);
        assert forall|i: int| 0 <= i < after.len() implies 0 <= #[trigger] after[i] < m by {
            if i < before.len() {
                assert(after[i] == before[i]);
            } else {
                assert(after[i] == done[k - 1]);
            }
        }
    }
}

proof fn lemma_cleared_sound(n: Nets, q: Queue, victims: Seq<NetId>, k: nat)
    requires
        queue_sound(n, q),
    ensures
        queue_sound(n, cleared(n.work, q, victims, k)),
        claims_kept(q.works.board, cleared(n.work, q, victims, k).works.board),
        cleared(n.work, q, victims, k).works.stop == q.works.stop,
    decreases k,
{
    if k > 0 {
        lemma_cleared_sound(n, q, victims, (k - 1) as nat);
        let before = cleared(n.work, q, victims, (k - 1) as nat);
        let v = victims[k - 1];
        let b = before.works.board;
        lemma_rip_keeps_apart(b, v);
        assert(claims_kept(b, ripped(b, v)));
        lemma_ends_kept(n, b, ripped(b, v));
        lemma_share(n.work, before.done, v, true, before.done.len(), n.work.len() as int);
        lemma_share(n.work, before.done, v, false, before.done.len(), n.work.len() as int);
        let more = share(n.work, before.done, v, true, before.done.len());
        let after = cleared(n.work, q, victims, k);
        assert forall|i: int| 0 <= i < after.waiting.len() implies 0 <= #[trigger] after.waiting[i]
            < n.work.len() by {
            if i >= before.waiting.len() {
                assert(after.waiting[i] == more[i - before.waiting.len()]);
            } else {
                assert(after.waiting[i] == before.waiting[i]);
            }
        }
    }
}

proof fn lemma_turn_sound(n: Nets, q: Queue)
    requires
        nets_sound(n),
        queue_sound(n, q),
        !is_over(q),
    ensures
        queue_sound(n, turn(n, q)),
        claims_kept(q.works.board, turn(n, q).works.board),
{
    let i = q.waiting[0];
    assert(0 <= q.waiting[0] < n.work.len());
    let c = n.work[i];
    let l = net_line(n, c.src);
    let sources = n.spine[c.src];
    assert(crate::negotiate::conn_ok(n.spine, n.work[i]));
    lemma_conn_sound(l, q.works, sources, c, q.band);
    let t = conn_tried(l, q.works, sources, c, q.band);
    lemma_ends_kept(n, q.works.board, t.works.board);
    let after = turn(n, q);
    if t.works.stop is None {
        if t.stalled is None {
            assert forall|k: int| 0 <= k < after.waiting.len() implies 0 <= #[trigger] after.waiting[k]
                < n.work.len() by {
                assert(after.waiting[k] == q.waiting[k + 1]);
            }
        } else {
            let victims = victims_of(t.works.board, c.feed, sources[0], c.src, victims_max(t.last));
            let band = if conn_hops(sources[0], c.feed) > 1 {
                (q.band + 1) % 6
            } else {
                q.band
            };
            let from = Queue {
                works: t.works,
                tries: q.tries.update(i, q.tries[i] + 1),
                band,
                ..q
            };
            lemma_cleared_sound(n, from, victims, victims.len());
        }
    }
}

/// No shorts: where wires of different nets joined only if both were placed by hand,
/// and every connection owns its ends, both are still so after any number of turns of
/// routing and ripping up.
pub proof fn lemma_negotiation_keeps_apart(n: Nets, q: Queue, k: nat)
    requires
        nets_sound(n),
        queue_sound(n, q),
    ensures
        queue_sound(n, turned(n, q, k)),
        claims_kept(q.works.board, turned(n, q, k).works.board),
    decreases k,
{
    if k > 0 {
        lemma_negotiation_keeps_apart(n, q, (k - 1) as nat);
        let before = turned(n, q, (k - 1) as nat);
        if !is_over(before) {
            lemma_turn_sound(n, before);
        }
    }
}

// --- before any routing ----------------------------------------------------------------------

/// Every wire was placed by hand.
pub open spec fn all_fixed(b: Board) -> bool {
    forall|p: Pos| #[trigger] b.owner.contains_key(p) ==> is_fixed(b, p)
}

proof fn lemma_spine_fixed(w: Works, net: NetId, out: Pos, step: int, mat: Material, facing: Dir, t: nat)
    requires
        all_fixed(w.board),
    ensures
        all_fixed(spine_laid(w, net, out, step, mat, facing, t).works.board),
    decreases t,
{
    if t > 0 {
        lemma_spine_fixed(w, net, out, step, mat, facing, (t - 1) as nat);
    }
}

proof fn lemma_spines_fixed(c: Chart, w: Works, at: Map<Sig, Pos>, n: nat)
    requires
        all_fixed(w.board),
    ensures
        all_fixed(spines_laid(c, w, at, n).works.board),
    decreases n,
{
    if n > 0 {
        lemma_spines_fixed(c, w, at, (n - 1) as nat);
        let before = spines_laid(c, w, at, (n - 1) as nat);
        let s = (n - 1) as u32;
        if at.contains_key(s) {
            lemma_spine_fixed(
                before.works,
                s,
                at[s],
                1,
                Material::Wire,
                Dir::North,
                spine_wanted(readers(c, s, c.order.len())),
            );
        }
    }
}

proof fn lemma_shells_fixed(b: Board, base: Map<Sig, Pos>, bits: Seq<Sig>, n: nat)
    requires
        all_fixed(b),
    ensures
        all_fixed(shells_kept(b, base, bits, n)),
    decreases n,
{
    if n > 0 {
        lemma_shells_fixed(b, base, bits, (n - 1) as nat);
    }
}

proof fn lemma_lane_fixed(w: Works, f: Pos, src: NetId, t: nat)
    requires
        all_fixed(w.board),
    ensures
        all_fixed(lane_laid(w, f, src, t).board),
    decreases t,
{
    if t > 0 {
        lemma_lane_fixed(w, f, src, (t - 1) as nat);
        let before = lane_laid(w, f, src, (t - 1) as nat);
        if before.stop is None {
            let p = moved(f, 0, 0, -(t - 1));
            let b = claimed_by(before.board, p, src);
            assert(all_fixed(b));
            assert forall|x: Pos| #[trigger] lane_cell(before, f, src, t - 1).board.owner.contains_key(x) implies is_fixed(
                lane_cell(before, f, src, t - 1).board,
                x,
            ) by {
                assert(b.owner.contains_key(x) || before.board.owner.contains_key(x));
            }
        }
    }
}

proof fn lemma_gate_fixed(w: Works, base: Pos, ops: Seq<Sig>, n: nat)
    requires
        all_fixed(w.board),
    ensures
        all_fixed(gate_stubs(w, base, ops, n).board),
    decreases n,
{
    if n > 0 {
        lemma_gate_fixed(w, base, ops, (n - 1) as nat);
        let before = gate_stubs(w, base, ops, (n - 1) as nat);
        if before.stop is None {
            let f = feed_at(base, n - 1);
            lemma_lane_fixed(before, f, ops[n - 1], 6);
            let lane = lane_laid(before, f, ops[n - 1], 6);
            let after = gate_stubs(w, base, ops, n).board;
            assert forall|x: Pos| #[trigger] after.owner.contains_key(x) implies is_fixed(after, x) by {
                assert(lane.board.owner.contains_key(x));
            }
        }
    }
}

proof fn lemma_stubs_fixed(c: Chart, w: Works, base: Map<Sig, Pos>, n: nat)
    requires
        all_fixed(w.board),
    ensures
        all_fixed(stubs_laid(c, w, base, n).board),
    decreases n,
{
    if n > 0 {
        lemma_stubs_fixed(c, w, base, (n - 1) as nat);
        let before = stubs_laid(c, w, base, (n - 1) as nat);
        let g = c.order[n - 1];
        if base.contains_key(g) {
            lemma_gate_fixed(before, base[g], gate_operands(c.gates[g as int]), gate_operands(c.gates[g as int]).len());
        }
    }
}

/// Before any routing, every wire is one that was placed by hand.
pub proof fn lemma_lanes_fixed(d: Draft, f: Floor)
    ensures
        all_fixed(with_lanes(d, f).board),
        nets_apart(with_lanes(d, f).board),
{
    reveal(with_spines);
    reveal(with_lanes);
    let w = with_lamps(d, f);
    assert(all_fixed(w.board));
    lemma_spines_fixed(d.chart, w, f.at, d.chart.gates.len());
    let s = with_spines(d, f).works;
    assert(all_fixed(s.board));
    if s.stop is None {
        lemma_shells_fixed(s.board, f.base, all_bits(d), all_bits(d).len());
        let shielded = Works { board: shells_kept(s.board, f.base, all_bits(d), all_bits(d).len()), ..s };
        lemma_stubs_fixed(d.chart, shielded, f.base, d.chart.order.len());
    }
}

/// No shorts in a layout: once the inputs of all gates are routed, wires of different
/// nets join only where both were placed by hand, as long as every connection owned
/// its ends before any routing.
pub proof fn lemma_inputs_apart(t: Tuning, d: Draft, f: Floor)
    requires
        with_lanes(d, f).stop is None,
        board_ok(with_lanes(d, f).board),
        nets_sound(nets_of(t, d, f)),
        ends_owned(nets_of(t, d, f), with_lanes(d, f).board),
    ensures
        nets_apart(with_inputs(t, d, f).works.board),
        claims_kept(with_lanes(d, f).board, with_inputs(t, d, f).works.board),
{
    reveal(with_inputs);
    let n = nets_of(t, d, f);
    let w = with_lanes(d, f);
    let q = all_waiting(w, n.work.len());
    lemma_lanes_fixed(d, f);
    assert(queue_sound(n, q));
    let k = choose|k: nat| is_over(#[trigger] turned(n, q, k));
    lemma_negotiation_keeps_apart(n, q, k);
}

/// No shorts in the layout of a draft: once the inputs of all gates are routed, wires
/// of different nets join only where both were placed by hand.
pub open spec fn inputs_apart(t: Tuning, d: Draft) -> bool {
    nets_apart(with_inputs(t, d, floor_of(t, d).floor).works.board)
}

/// No shorts in the finished layout of a draft: wires of different nets join only where
/// one of them was placed by hand, or is the end of a route to a lamp.
pub open spec fn routes_apart(t: Tuning, d: Draft) -> bool {
    routed_apart(laid_out(t, d).board, lamp_pads(floor_of(t, d).floor.base, all_bits(d)))
}

} // verus!
