//! The nets that end outside the gates: the lamps, and what flip-flops need.
use crate::bank::{bank_ports, ctrl_tap, flops_within};
use crate::deep::within;
use crate::flop::{d_ports, dff_ports, DffPorts};
use crate::negotiate::{no_driver, no_driver_text};
use crate::netlist::{row_wf, Dff, Sig};
use crate::relay::{
    asked, line_of, line_ok, owned, route_on, sources_ok, stage_routed, staged_route, Line, RELAY_BANDS,
};
use crate::route::{
    claimed_by, greater, keeps_others, lemma_claim_still_apart, lemma_same_still_apart,
    lemma_still_apart_trans, lesser, net_routed, route_ends, routed_apart, still_apart, Board, NetId,
    Router, Tuning, Works,
};
use crate::text::{decimal, push_decimal};
use crate::wiring::{
    known_spines, lamp_pad, lay_spine, lemma_spine_still_apart, pad_of, running, spine_laid,
    spines_within, SPINE_LEN,
};
use crate::world::{Dir, Grid, Material, Pos};
use crate::floorplan::{all_within, known};
use vstd::prelude::*;
use vstd::string::*;

verus! {

// --- lamps -------------------------------------------------------------------------------

/// What the routes share.
pub struct Outer {
    pub tuning: Tuning,
    pub max_expansions: usize,
    pub bounds: (Pos, Pos),
    pub spine: Map<Sig, Seq<Pos>>,
}

pub open spec fn outer_line(o: Outer, net: NetId, material: Material) -> Line {
    Line { tuning: o.tuning, max_expansions: o.max_expansions, net, bounds: o.bounds, material }
}

pub open spec fn outer_ok(o: Outer) -> bool {
    line_ok(outer_line(o, 0, Material::Wire))
}

pub open spec fn lamp_text(name: Seq<char>) -> Seq<char> {
    "routing output `"@ + name + "` to its lamp: "@
}

/// The first `n` bits of a port are routed to their lamps, which are numbered from
/// `first`.
pub open spec fn port_routed(
    o: Outer,
    w: Works,
    base: Map<Sig, Pos>,
    name: Seq<char>,
    bits: Seq<Sig>,
    first: int,
    n: nat,
) -> Works
    decreases n,
{
    if n == 0 {
        w
    } else {
        let before = port_routed(o, w, base, name, bits, first, (n - 1) as nat);
        let b = bits[n - 1];
        if before.stop is Some {
            before
        } else if !o.spine.contains_key(b) {
            Works { stop: Some(no_driver_text(b)), ..before }
        } else {
            let r = net_routed(
                asked(
                    outer_line(o, b, Material::PortOut),
                    o.spine[b],
                    lamp_pad(base, b, first + n - 1),
                    (o.spine[b].len() - 1) as i32,
                ),
                before.board,
                before.cells,
            );
            Works {
                stop: match r.stop {
                    Some(e) => Some(lamp_text(name) + e),
                    None => None,
                },
                ..r
            }
        }
    }
}

/// The bits of the first `n` ports, one after the other.
pub open spec fn port_bits(outs: Seq<(Seq<char>, Seq<Sig>)>, n: nat) -> Seq<Sig>
    decreases n,
{
    if n == 0 {
        Seq::empty()
    } else {
        port_bits(outs, (n - 1) as nat) + outs[n - 1].1
    }
}

/// The first `n` ports are routed to their lamps.
pub open spec fn ports_routed(
    o: Outer,
    w: Works,
    base: Map<Sig, Pos>,
    outs: Seq<(Seq<char>, Seq<Sig>)>,
    n: nat,
) -> Works
    decreases n,
{
    if n == 0 {
        w
    } else {
        let before = ports_routed(o, w, base, outs, (n - 1) as nat);
        if before.stop is Some {
            before
        } else {
            port_routed(
                o,
                before,
                base,
                outs[n - 1].0,
                outs[n - 1].1,
                port_bits(outs, (n - 1) as nat).len() as int,
                outs[n - 1].1.len(),
            )
        }
    }
}

/// The output ports, with their names.
pub open spec fn outputs_of(outs: Seq<(String, Vec<Sig>)>) -> Seq<(Seq<char>, Seq<Sig>)> {
    outs.map_values(|o: (String, Vec<Sig>)| (o.0@, o.1@))
}

fn lamp_label(name: &String) -> (s: String)
    ensures
        s@ == lamp_text(name@),
{
    let mut s = String::from_str("routing output `");
    s.append(name.as_str());
    s.append("` to its lamp: ");
    s
}

proof fn lemma_port_stops(
    o: Outer,
    w: Works,
    base: Map<Sig, Pos>,
    name: Seq<char>,
    bits: Seq<Sig>,
    first: int,
    n: nat,
    m: nat,
)
    requires
        port_routed(o, w, base, name, bits, first, n).stop is Some,
        n <= m,
    ensures
        port_routed(o, w, base, name, bits, first, m) == port_routed(o, w, base, name, bits, first, n),
    decreases m,
{
    if n < m {
        lemma_port_stops(o, w, base, name, bits, first, n, (m - 1) as nat);
    }
}

proof fn lemma_ports_stop(
    o: Outer,
    w: Works,
    base: Map<Sig, Pos>,
    outs: Seq<(Seq<char>, Seq<Sig>)>,
    n: nat,
    m: nat,
)
    requires
        ports_routed(o, w, base, outs, n).stop is Some,
        n <= m,
    ensures
        ports_routed(o, w, base, outs, m) == ports_routed(o, w, base, outs, n),
    decreases m,
{
    if n < m {
        lemma_ports_stop(o, w, base, outs, n, (m - 1) as nat);
    }
}

/// The ends of the routes to the lamps of some bits, which are numbered from `first`.
pub open spec fn pads_among(base: Map<Sig, Pos>, bits: Seq<Sig>, first: int, pads: Set<Pos>) -> bool {
    forall|i: int| 0 <= i < bits.len() ==> pads.contains(lamp_pad(base, #[trigger] bits[i], first + i))
}

/// The ends of the routes to all lamps.
pub open spec fn lamp_pads(base: Map<Sig, Pos>, bits: Seq<Sig>) -> Set<Pos> {
    Set::new(|p: Pos| exists|i: int| 0 <= i < bits.len() && p == lamp_pad(base, #[trigger] bits[i], i))
}

/// A cell of net `q` is no end of a route of another net to a lamp.
pub open spec fn port_passed(o: Outer, base: Map<Sig, Pos>, bits: Seq<Sig>, first: int, p: Pos, q: NetId) -> bool {
    forall|i: int|
        0 <= i < bits.len() ==> (#[trigger] bits[i]) == q || (p != lamp_pad(base, bits[i], first + i)
            && (o.spine.contains_key(bits[i]) ==> !o.spine[bits[i]].contains(p)))
}

/// The router is as the routes ask.
pub open spec fn outer_shown(o: Outer, r: Router, spines: Seq<Vec<Pos>>, bounds: (Pos, Pos)) -> bool {
    &&& o.tuning == r.tuning
    &&& o.max_expansions == r.max_expansions
    &&& o.bounds == bounds
    &&& o.spine == known_spines(spines)
    &&& outer_ok(o)
    &&& spines_within(spines, 0x0980_0000)
}

/// A spine that is known can be routed from.
pub proof fn lemma_spine_ok(spines: Seq<Vec<Pos>>, s: Sig)
    requires
        spines_within(spines, 0x0980_0000),
        known_spines(spines).contains_key(s),
    ensures
        s < spines.len(),
        known_spines(spines)[s] == spines[s as int]@,
        sources_ok(spines[s as int]@),
        spines[s as int]@.len() <= 25,
        forall|i: int| 0 <= i < spines[s as int]@.len() ==> within(#[trigger] spines[s as int]@[i], 0x0a00_0000),
{
    let v = spines[s as int]@;
    assert forall|i: int| 0 <= i < v.len() implies within(#[trigger] v[i], 0x0980_0000) by {
        assert(within(spines[s as int]@[i], 0x0980_0000));
    }
}

fn route_port(
    g: &mut Grid,
    r: &mut Router,
    spines: &Vec<Vec<Pos>>,
    base: &Vec<Option<Pos>>,
    name: &String,
    bits: &Vec<Sig>,
    first: usize,
    bounds: (Pos, Pos),
    Ghost(o): Ghost<Outer>,
    Ghost(w): Ghost<Works>,
) -> (res: Result<(), String>)
    requires
        running(w, *old(r), *old(g)),
        outer_shown(o, *old(r), spines@, bounds),
        all_within(known(base@), 0x0400_0000),
        base@.len() == spines@.len(),
        forall|i: int| 0 <= i < bits@.len() ==> (#[trigger] bits@[i]) < base@.len(),
        first + bits@.len() <= 0x0155_5555,
    ensures
        ({
            let after = port_routed(o, w, known(base@), name@, bits@, first as int, bits@.len());
            match res {
                Ok(_) => running(after, *final(r), *final(g)) && (forall|pads: Set<Pos>| #[trigger]
                    routed_apart(w.board, pads) && pads_among(known(base@), bits@, first as int, pads)
                        ==> routed_apart(after.board, pads)) && (forall|p: Pos, q: NetId| #[trigger]
                    owned(w.board, p, q) && port_passed(o, known(base@), bits@, first as int, p, q) ==> owned(
                        after.board,
                        p,
                        q,
                    )),
                Err(m) => after.stop == Some(m@),
            }
        }),
        final(r).max_expansions == old(r).max_expansions,
        final(r).tuning == old(r).tuning,
{
    for i in 0..bits.len()
        invariant
            running(port_routed(o, w, known(base@), name@, bits@, first as int, i as nat), *r, *g),
            forall|pads: Set<Pos>| #[trigger]
                routed_apart(w.board, pads) && pads_among(known(base@), bits@, first as int, pads)
                    ==> routed_apart(r@, pads),
            forall|p: Pos, q: NetId| #[trigger]
                owned(w.board, p, q) && port_passed(o, known(base@), bits@, first as int, p, q) ==> owned(r@, p, q),
            outer_shown(o, *r, spines@, bounds),
            all_within(known(base@), 0x0400_0000),
            base@.len() == spines@.len(),
        forall|i: int| 0 <= i < bits@.len() ==> (#[trigger] bits@[i]) < base@.len(),
            first + bits@.len() <= 0x0155_5555,
            r.max_expansions == old(r).max_expansions,
            r.tuning == old(r).tuning,
    {
        let b: Sig = bits[i];
        assert(bits@[i as int] < base@.len());
        if spines[b as usize].len() == 0 {
            proof {
                assert(!o.spine.contains_key(b));
                lemma_port_stops(
                    o,
                    w,
                    known(base@),
                    name@,
                    bits@,
                    first as int,
                    (i + 1) as nat,
                    bits@.len(),
                );
            }
            return Err(no_driver(b));
        }
        assert(o.spine.contains_key(b));
        proof {
            lemma_spine_ok(spines@, b);
        }
        let pad = pad_of(base, b, first + i);
        let sources = &spines[b as usize];
        let decay: i32 = sources.len() as i32 - 1;
        let ghost before = port_routed(o, w, known(base@), name@, bits@, first as int, i as nat);
        assert(line_of(*r, b, bounds, Material::PortOut) == outer_line(o, b, Material::PortOut));
        match route_on(g, r, b, sources, pad, bounds, Material::PortOut, decay, Ghost(before)) {
            Ok(_) => {
                assert forall|pads: Set<Pos>| #[trigger]
                    routed_apart(w.board, pads) && pads_among(known(base@), bits@, first as int, pads) implies routed_apart(
                    r@,
                    pads,
                ) by {
                    assert(routed_apart(before.board, pads));
                    assert(pads.contains(lamp_pad(known(base@), bits@[i as int], first + i)));
                }
                assert forall|p: Pos, q: NetId| #[trigger]
                    owned(w.board, p, q) && port_passed(o, known(base@), bits@, first as int, p, q) implies owned(
                    r@,
                    p,
                    q,
                ) by {
                    assert(owned(before.board, p, q));
                    assert(before.board.owner.contains_key(p));
                    assert(bits@[i as int] == b);
                    assert(q == b || !route_ends(sources@, pad).contains(p));
                }
            },
            Err(e) => {
                proof {
                    lemma_port_stops(
                        o,
                        w,
                        known(base@),
                        name@,
                        bits@,
                        first as int,
                        (i + 1) as nat,
                        bits@.len(),
                    );
                }
                let mut m = lamp_label(name);
                m.append(e.as_str());
                return Err(m);
            },
        }
    }
    Ok(())
}

/// Route each output bit out to the lamp reserved for it.
pub fn route_ports(
    g: &mut Grid,
    r: &mut Router,
    spines: &Vec<Vec<Pos>>,
    base: &Vec<Option<Pos>>,
    outs: &Vec<(String, Vec<Sig>)>,
    bounds: (Pos, Pos),
    Ghost(o): Ghost<Outer>,
    Ghost(w): Ghost<Works>,
) -> (res: Result<(), String>)
    requires
        running(w, *old(r), *old(g)),
        outer_shown(o, *old(r), spines@, bounds),
        all_within(known(base@), 0x0400_0000),
        base@.len() == spines@.len(),
        forall|p: int| 0 <= p < outs@.len() ==> row_wf((#[trigger] outs@[p]).1@, base@.len()),
        port_bits(outputs_of(outs@), outs@.len()).len() <= 0x0155_5555,
    ensures
        ({
            let after = ports_routed(o, w, known(base@), outputs_of(outs@), outs@.len());
            match res {
                Ok(_) => running(after, *final(r), *final(g)) && (routed_apart(
                    w.board,
                    lamp_pads(known(base@), port_bits(outputs_of(outs@), outs@.len())),
                ) ==> routed_apart(
                    after.board,
                    lamp_pads(known(base@), port_bits(outputs_of(outs@), outs@.len())),
                )) && (forall|p: Pos, q: NetId| #[trigger]
                    owned(w.board, p, q) && port_passed(
                        o,
                        known(base@),
                        port_bits(outputs_of(outs@), outs@.len()),
                        0,
                        p,
                        q,
                    ) ==> owned(after.board, p, q)),
                Err(m) => after.stop == Some(m@),
            }
        }),
        final(r).max_expansions == old(r).max_expansions,
        final(r).tuning == old(r).tuning,
{
    let ghost all = outputs_of(outs@);
    let ghost bits_all = port_bits(all, outs@.len());
    let ghost pads = lamp_pads(known(base@), bits_all);
    let mut first: usize = 0;
    for p in 0..outs.len()
        invariant
            all == outputs_of(outs@),
            running(ports_routed(o, w, known(base@), all, p as nat), *r, *g),
            bits_all == port_bits(all, outs@.len()),
            pads == lamp_pads(known(base@), bits_all),
            routed_apart(w.board, pads) ==> routed_apart(r@, pads),
            forall|p: Pos, q: NetId| #[trigger]
                owned(w.board, p, q) && port_passed(o, known(base@), bits_all, 0, p, q) ==> owned(r@, p, q),
            outer_shown(o, *r, spines@, bounds),
            all_within(known(base@), 0x0400_0000),
            base@.len() == spines@.len(),
            forall|p: int| 0 <= p < outs@.len() ==> row_wf((#[trigger] outs@[p]).1@, base@.len()),
            port_bits(all, outs@.len()).len() <= 0x0155_5555,
            first == port_bits(all, p as nat).len(),
            r.max_expansions == old(r).max_expansions,
            r.tuning == old(r).tuning,
    {
        let name = &outs[p].0;
        let bits = &outs[p].1;
        assert(all[p as int] == (outs@[p as int].0@, outs@[p as int].1@));
        proof {
            lemma_bits_grow(all, (p + 1) as nat, outs@.len());
            assert(row_wf(outs@[p as int].1@, base@.len()));
        }
        let ghost before = ports_routed(o, w, known(base@), all, p as nat);
        match route_port(g, r, spines, base, name, bits, first, bounds, Ghost(o), Ghost(before)) {
            Ok(_) => {
                assert(pads_among(known(base@), bits@, first as int, pads)) by {
                    assert forall|i: int| 0 <= i < bits@.len() implies pads.contains(
                        lamp_pad(known(base@), #[trigger] bits@[i], first + i),
                    ) by {
                        lemma_bits_at(all, (p + 1) as nat, outs@.len(), first + i);
                        assert(port_bits(all, (p + 1) as nat)[first + i] == bits@[i]);
                        assert(bits_all[first + i] == bits@[i]);
                    }
                }
                assert(routed_apart(w.board, pads) ==> routed_apart(before.board, pads));
                assert forall|c: Pos, q: NetId| #[trigger]
                    owned(w.board, c, q) && port_passed(o, known(base@), bits_all, 0, c, q) implies owned(r@, c, q) by {
                    assert(owned(before.board, c, q));
                    assert(port_passed(o, known(base@), bits@, first as int, c, q)) by {
                        assert forall|i: int| 0 <= i < bits@.len() implies (#[trigger] bits@[i]) == q || (c != lamp_pad(
                            known(base@),
                            bits@[i],
                            first + i,
                        ) && (o.spine.contains_key(bits@[i]) ==> !o.spine[bits@[i]].contains(c))) by {
                            lemma_bits_at(all, (p + 1) as nat, outs@.len(), first + i);
                            assert(port_bits(all, (p + 1) as nat)[first + i] == bits@[i]);
                            assert(bits_all[first + i] == bits@[i]);
                        }
                    }
                }
            },
            Err(e) => {
                proof {
                    lemma_ports_stop(o, w, known(base@), all, (p + 1) as nat, outs@.len());
                }
                return Err(e);
            },
        }
        first = first + bits.len();
    }
    Ok(())
}

/// The bits of the first ports come first.
proof fn lemma_bits_at(outs: Seq<(Seq<char>, Seq<Sig>)>, n: nat, m: nat, k: int)
    requires
        n <= m,
        0 <= k < port_bits(outs, n).len(),
    ensures
        k < port_bits(outs, m).len(),
        port_bits(outs, m)[k] == port_bits(outs, n)[k],
    decreases m,
{
    if n < m {
        lemma_bits_at(outs, n, (m - 1) as nat, k);
    }
}

/// More ports have no fewer bits.
pub proof fn lemma_bits_grow(outs: Seq<(Seq<char>, Seq<Sig>)>, n: nat, m: nat)
    requires
        n <= m,
    ensures
        port_bits(outs, n).len() <= port_bits(outs, m).len(),
    decreases m,
{
    if n < m {
        lemma_bits_grow(outs, n, (m - 1) as nat);
    }
}

// --- flip-flops --------------------------------------------------------------------------

/// The least Z at which a clock or a clear enters the first `n` flip-flops.
pub open spec fn far_pad(flops: Seq<(Pos, Pos)>, n: nat) -> int
    decreases n,
{
    let f = flops[n - 1];
    let own = lesser(
        lesser(d_ports(f.0).en.2 as int, d_ports(f.1).en.2 as int),
        lesser(d_ports(f.0).clr.2 as int, d_ports(f.1).clr.2 as int),
    );
    if n <= 1 {
        own
    } else {
        lesser(far_pad(flops, (n - 1) as nat), own)
    }
}

/// How long the trunks are: past the pads of the deepest flip-flop.
pub open spec fn trunk_reach(flops: Seq<(Pos, Pos)>) -> int {
    greater(ctrl_tap(0).2 - far_pad(flops, flops.len()) + 8, SPINE_LEN as int)
}

/// The trunks of the clock, the inverted clock and the reset.
pub struct Trunks {
    pub works: Works,
    pub clk: Seq<Pos>,
    pub clk_n: Seq<Pos>,
    pub rst: Seq<Pos>,
}

pub open spec fn trunk(w: Works, net: NetId, i: int, reach: nat) -> crate::wiring::Spine {
    spine_laid(w, net, ctrl_tap(i), -1, Material::Clock, Dir::South, reach)
}

/// The trunks are laid. Their nets come after all signals.
pub open spec fn trunks_laid(w: Works, first: NetId, flops: Seq<(Pos, Pos)>) -> Trunks {
    let reach = trunk_reach(flops) as nat;
    let a = trunk(w, first, 0, reach);
    let b = trunk(a.works, (first + 1) as u32, 1, reach);
    let c = trunk(b.works, (first + 2) as u32, 2, reach);
    Trunks { works: c.works, clk: a.cells, clk_n: b.cells, rst: c.cells }
}

/// The feeding of flip-flops so far, and the band of the next chain of relays.
pub struct Fed {
    pub works: Works,
    pub band: int,
}

/// One more pad is fed.
#[verifier::opaque]
pub open spec fn pad_fed(
    l: Line,
    f: Fed,
    sources: Seq<Pos>,
    to: Pos,
    decay: i32,
    prefix: Seq<char>,
) -> Fed {
    if f.works.stop is Some {
        f
    } else {
        let r = stage_routed(
            l,
            Works { board: claimed_by(f.works.board, to, l.net), ..f.works },
            sources,
            to,
            decay,
            f.band,
        );
        Fed {
            works: Works {
                stop: match r.stop {
                    Some(e) => Some(prefix + e),
                    None => None,
                },
                ..r
            },
            band: (f.band + 1) % (RELAY_BANDS as int),
        }
    }
}

pub open spec fn pad_text(label: Seq<char>, i: nat) -> Seq<char> {
    "routing "@ + label + " into flip-flop "@ + decimal(i) + ": "@
}

pub open spec fn no_d_text(i: nat, d: Sig) -> Seq<char> {
    "flip-flop "@ + decimal(i) + " D signal "@ + decimal(d as nat) + " has no driver"@
}

/// The data input of flip-flop `i` is fed. A tap on a spine costs at most one refresh
/// interval; a bare output is a repeater and costs nothing.
pub open spec fn data_fed(o: Outer, f: Fed, flop: (Pos, Pos), d: Sig, i: nat) -> Fed {
    if f.works.stop is Some {
        f
    } else if !o.spine.contains_key(d) {
        Fed { works: Works { stop: Some(no_d_text(i, d)), ..f.works }, ..f }
    } else {
        pad_fed(
            outer_line(o, d, Material::Wire),
            f,
            o.spine[d],
            d_ports(flop.0).d,
            if o.spine[d].len() > 1 {
                5
            } else {
                0
            },
            pad_text("D"@, i),
        )
    }
}

/// Flip-flop `i` is fed: its data, the two phases of the clock, and its two clears.
pub open spec fn flop_fed(o: Outer, t: Trunks, first: NetId, f: Fed, flop: (Pos, Pos), d: Sig, i: nat) -> Fed {
    let m = d_ports(flop.0);
    let s = d_ports(flop.1);
    let clk = outer_line(o, first, Material::Clock);
    let clk_n = outer_line(o, (first + 1) as u32, Material::Clock);
    let rst = outer_line(o, (first + 2) as u32, Material::Clock);
    let f = data_fed(o, f, flop, d, i);
    let f = pad_fed(clk, f, t.clk, m.en, 5, pad_text("clk"@, i));
    let f = pad_fed(clk_n, f, t.clk_n, s.en, 5, pad_text("clk_n"@, i));
    let f = pad_fed(rst, f, t.rst, m.clr, 5, pad_text("reset 0"@, i));
    pad_fed(rst, f, t.rst, s.clr, 5, pad_text("reset 1"@, i))
}

/// The first `n` flip-flops are fed.
pub open spec fn flops_fed(
    o: Outer,
    t: Trunks,
    first: NetId,
    f: Fed,
    flops: Seq<(Pos, Pos)>,
    ds: Seq<Sig>,
    n: nat,
) -> Fed
    decreases n,
{
    if n == 0 {
        f
    } else {
        let before = flops_fed(o, t, first, f, flops, ds, (n - 1) as nat);
        if before.works.stop is Some {
            before
        } else {
            flop_fed(o, t, first, before, flops[n - 1], ds[n - 1], (n - 1) as nat)
        }
    }
}

/// The bank is connected, where there is one.
pub open spec fn bank_fed(
    o: Outer,
    w: Works,
    first: NetId,
    flops: Seq<(Pos, Pos)>,
    ds: Seq<Sig>,
    band: int,
) -> Works {
    if flops.len() == 0 {
        w
    } else {
        let t = trunks_laid(w, first, flops);
        flops_fed(o, t, first, Fed { works: t.works, band }, flops, ds, flops.len()).works
    }
}

proof fn lemma_fed_stops(
    o: Outer,
    t: Trunks,
    first: NetId,
    f: Fed,
    flops: Seq<(Pos, Pos)>,
    ds: Seq<Sig>,
    n: nat,
    m: nat,
)
    requires
        flops_fed(o, t, first, f, flops, ds, n).works.stop is Some,
        n <= m,
    ensures
        flops_fed(o, t, first, f, flops, ds, m) == flops_fed(o, t, first, f, flops, ds, n),
    decreases m,
{
    if n < m {
        lemma_fed_stops(o, t, first, f, flops, ds, n, (m - 1) as nat);
    }
}

/// What has stopped goes no further.
proof fn lemma_pads_stop()
    ensures
        forall|l: Line, f: Fed, sources: Seq<Pos>, to: Pos, decay: i32, prefix: Seq<char>|
            f.works.stop is Some ==> #[trigger] pad_fed(l, f, sources, to, decay, prefix) == f,
{
    reveal(pad_fed);
}

fn pad_label(label: &str, i: usize) -> (s: String)
    ensures
        s@ == pad_text(label@, i as nat),
{
    let mut s = String::from_str("routing ");
    s.append(label);
    s.append(" into flip-flop ");
    push_decimal(&mut s, i as u64);
    s.append(": ");
    s
}

fn no_d(i: usize, d: Sig) -> (s: String)
    ensures
        s@ == no_d_text(i as nat, d),
{
    let mut s = String::from_str("flip-flop ");
    push_decimal(&mut s, i as u64);
    s.append(" D signal ");
    push_decimal(&mut s, d as u64);
    s.append(" has no driver");
    s
}

/// Sources that a staged route can leave from.
spec fn tap_ok(s: Seq<Pos>) -> bool {
    &&& sources_ok(s)
    &&& forall|i: int| 0 <= i < s.len() ==> within(#[trigger] s[i], 0x0a00_0000)
}

/// A pad is the net's once it is fed, and no other wire has changed hands but where the
/// route began and ended.
pub open spec fn pad_kept(a: Board, b: Board, net: NetId, sources: Seq<Pos>, to: Pos) -> bool {
    &&& keeps_others(a, b, net, route_ends(sources, to))
    &&& owned(b, to, net)
}

proof fn lemma_pad_kept(a: Board, net: NetId, sources: Seq<Pos>, to: Pos)
    ensures
        forall|b: Board| #[trigger]
            keeps_others(claimed_by(a, to, net), b, net, route_ends(sources, to)) ==> pad_kept(
                a,
                b,
                net,
                sources,
                to,
            ),
{
    let c = claimed_by(a, to, net);
    assert forall|b: Board| #[trigger] keeps_others(c, b, net, route_ends(sources, to)) implies pad_kept(
        a,
        b,
        net,
        sources,
        to,
    ) by {
        assert(c.owner.contains_key(to));
        assert forall|p: Pos| #[trigger]
            a.owner.contains_key(p) && (a.owner[p] == net || !route_ends(sources, to).contains(p)) implies b.owner.contains_key(
            p,
        ) && b.owner[p] == a.owner[p] by {
            assert(c.owner.contains_key(p));
        }
    }
}

/// A flip-flop is fed without any other wire changing hands.
#[verifier::opaque]
pub open spec fn flop_kept(o: Outer, t: Trunks, first: NetId, f: Fed, flop: (Pos, Pos), d: Sig, i: nat) -> bool {
    let m = d_ports(flop.0);
    let s = d_ports(flop.1);
    let f1 = data_fed(o, f, flop, d, i);
    let f2 = pad_fed(outer_line(o, first, Material::Clock), f1, t.clk, m.en, 5, pad_text("clk"@, i));
    let f3 = pad_fed(outer_line(o, (first + 1) as u32, Material::Clock), f2, t.clk_n, s.en, 5, pad_text("clk_n"@, i));
    let f4 = pad_fed(outer_line(o, (first + 2) as u32, Material::Clock), f3, t.rst, m.clr, 5, pad_text("reset 0"@, i));
    let f5 = flop_fed(o, t, first, f, flop, d, i);
    &&& o.spine.contains_key(d)
    &&& pad_kept(f.works.board, f1.works.board, d, o.spine[d], m.d)
    &&& pad_kept(f1.works.board, f2.works.board, first, t.clk, m.en)
    &&& pad_kept(f2.works.board, f3.works.board, (first + 1) as u32, t.clk_n, s.en)
    &&& pad_kept(f3.works.board, f4.works.board, (first + 2) as u32, t.rst, m.clr)
    &&& pad_kept(f4.works.board, f5.works.board, (first + 2) as u32, t.rst, s.clr)
}

fn feed_pad(
    g: &mut Grid,
    r: &mut Router,
    net: NetId,
    sources: &Vec<Pos>,
    to: Pos,
    bounds: (Pos, Pos),
    material: Material,
    decay: i32,
    band: i32,
    prefix: String,
    Ghost(l): Ghost<Line>,
    Ghost(f): Ghost<Fed>,
) -> (res: Result<i32, String>)
    requires
        running(f.works, *old(r), *old(g)),
        f.band == band,
        0 <= band < 6,
        l == line_of(*old(r), net, bounds, material),
        line_ok(l),
        tap_ok(sources@),
        within(to, 0x0a00_0000),
    ensures
        ({
            let after = pad_fed(l, f, sources@, to, decay, prefix@);
            match res {
                Ok(b) => running(after.works, *final(r), *final(g)) && b == after.band && 0 <= b < 6
                    && still_apart(f.works.board, after.works.board) && pad_kept(
                    f.works.board,
                    after.works.board,
                    net,
                    sources@,
                    to,
                ),
                Err(m) => after.works.stop == Some(m@),
            }
        }),
        final(r).max_expansions == old(r).max_expansions,
        final(r).tuning == old(r).tuning,
{
    proof {
        reveal(pad_fed);
        lemma_pad_kept(f.works.board, net, sources@, to);
    }
    r.claim(to, net);
    let ghost w = Works { board: claimed_by(f.works.board, to, net), ..f.works };
    proof {
        lemma_claim_still_apart(f.works.board, to, net);
    }
    match staged_route(g, r, net, sources, to, bounds, material, decay, band, Ghost(w)) {
        Ok(_) => {
            proof {
                lemma_still_apart_trans(
                    f.works.board,
                    w.board,
                    pad_fed(l, f, sources@, to, decay, prefix@).works.board,
                );
            }
            Ok((band + 1) % RELAY_BANDS)
        },
        Err(e) => {
            let mut m = prefix;
            m.append(e.as_str());
            Err(m)
        },
    }
}

/// Feed one flip-flop.
fn feed_flop(
    g: &mut Grid,
    r: &mut Router,
    spines: &Vec<Vec<Pos>>,
    clk: &Vec<Pos>,
    clk_n: &Vec<Pos>,
    rst: &Vec<Pos>,
    first: NetId,
    ports: &DffPorts,
    d: Sig,
    i: usize,
    bounds: (Pos, Pos),
    band: i32,
    Ghost(o): Ghost<Outer>,
    Ghost(t): Ghost<Trunks>,
    Ghost(flop): Ghost<(Pos, Pos)>,
    Ghost(f): Ghost<Fed>,
) -> (res: Result<i32, String>)
    requires
        running(f.works, *old(r), *old(g)),
        outer_shown(o, *old(r), spines@, bounds),
        f.band == band,
        0 <= band < 6,
        t.clk == clk@,
        t.clk_n == clk_n@,
        t.rst == rst@,
        tap_ok(clk@),
        tap_ok(clk_n@),
        tap_ok(rst@),
        first <= 0xffff_fffd,
        d < spines@.len(),
        dff_ports(*ports, flop.0, flop.1),
        within(flop.0, 0x0880_0000),
        within(flop.1, 0x0880_0000),
    ensures
        ({
            let after = flop_fed(o, t, first, f, flop, d, i as nat);
            match res {
                Ok(b) => running(after.works, *final(r), *final(g)) && b == after.band && 0 <= b < 6
                    && still_apart(f.works.board, after.works.board) && flop_kept(
                    o,
                    t,
                    first,
                    f,
                    flop,
                    d,
                    i as nat,
                ),
                Err(m) => after.works.stop == Some(m@),
            }
        }),
        final(r).max_expansions == old(r).max_expansions,
        final(r).tuning == old(r).tuning,
{
    proof {
        lemma_pads_stop();
        reveal(flop_kept);
    }
    let ghost m = d_ports(flop.0);
    let ghost s = d_ports(flop.1);
    let ghost clk_line = outer_line(o, first, Material::Clock);
    let ghost clk_n_line = outer_line(o, (first + 1) as u32, Material::Clock);
    let ghost rst_line = outer_line(o, (first + 2) as u32, Material::Clock);
    let sources = &spines[d as usize];
    if sources.len() == 0 {
        assert(!o.spine.contains_key(d));
        return Err(no_d(i, d));
    }
    assert(o.spine.contains_key(d));
    proof {
        lemma_spine_ok(spines@, d);
    }
    let decay: i32 = if sources.len() > 1 {
        5
    } else {
        0
    };
    assert(ports.d_feeds@[0] == m.d);
    assert(ports.clk_feeds@[0] == m.en);
    assert(ports.clk_n_feeds@[0] == s.en);
    assert(ports.clr_feeds@[0] == m.clr);
    assert(ports.clr_feeds@[1] == s.clr);
    let ghost f1 = data_fed(o, f, flop, d, i as nat);
    let b = feed_pad(
        g,
        r,
        d,
        sources,
        ports.d_feeds[0],
        bounds,
        Material::Wire,
        decay,
        band,
        pad_label("D", i),
        Ghost(outer_line(o, d, Material::Wire)),
        Ghost(f),
    )?;
    let ghost f2 = pad_fed(clk_line, f1, t.clk, m.en, 5, pad_text("clk"@, i as nat));
    let b = feed_pad(
        g,
        r,
        first,
        clk,
        ports.clk_feeds[0],
        bounds,
        Material::Clock,
        5,
        b,
        pad_label("clk", i),
        Ghost(clk_line),
        Ghost(f1),
    )?;
    let ghost f3 = pad_fed(clk_n_line, f2, t.clk_n, s.en, 5, pad_text("clk_n"@, i as nat));
    let b = feed_pad(
        g,
        r,
        first + 1,
        clk_n,
        ports.clk_n_feeds[0],
        bounds,
        Material::Clock,
        5,
        b,
        pad_label("clk_n", i),
        Ghost(clk_n_line),
        Ghost(f2),
    )?;
    let ghost f4 = pad_fed(rst_line, f3, t.rst, m.clr, 5, pad_text("reset 0"@, i as nat));
    let b = feed_pad(
        g,
        r,
        first + 2,
        rst,
        ports.clr_feeds[0],
        bounds,
        Material::Clock,
        5,
        b,
        pad_label("reset 0", i),
        Ghost(rst_line),
        Ghost(f3),
    )?;
    proof {
        lemma_still_apart_trans(f.works.board, f1.works.board, f2.works.board);
        lemma_still_apart_trans(f.works.board, f2.works.board, f3.works.board);
        lemma_still_apart_trans(f.works.board, f3.works.board, f4.works.board);
    }
    let ghost f5 = pad_fed(rst_line, f4, t.rst, s.clr, 5, pad_text("reset 1"@, i as nat));
    let b = feed_pad(
        g,
        r,
        first + 2,
        rst,
        ports.clr_feeds[1],
        bounds,
        Material::Clock,
        5,
        b,
        pad_label("reset 1", i),
        Ghost(rst_line),
        Ghost(f4),
    )?;
    proof {
        lemma_still_apart_trans(f.works.board, f4.works.board, f5.works.board);
    }
    Ok(b)
}

fn lower_z(a: i32, b: i32) -> (c: i32)
    ensures
        c == lesser(a as int, b as int),
{
    if a < b {
        a
    } else {
        b
    }
}

fn find_far_pad(flops: &Vec<DffPorts>, Ghost(at): Ghost<Seq<(Pos, Pos)>>) -> (z: i32)
    requires
        flops@.len() > 0,
        bank_ports(flops@, at),
        flops_within(at, 0x0880_0000),
    ensures
        z == far_pad(at, at.len()),
        -0x0880_0100 <= z <= 0x0880_0100,
{
    let mut z: i32 = 0;
    for i in 0..flops.len()
        invariant
            bank_ports(flops@, at),
            flops_within(at, 0x0880_0000),
            i > 0 ==> z == far_pad(at, i as nat),
            -0x0880_0100 <= z <= 0x0880_0100,
    {
        let f = &flops[i];
        assert(dff_ports(flops@[i as int], at[i as int].0, at[i as int].1));
        assert(within(at[i as int].0, 0x0880_0000) && within(at[i as int].1, 0x0880_0000));
        assert(f.clk_feeds@[0] == d_ports(at[i as int].0).en);
        assert(f.clk_n_feeds@[0] == d_ports(at[i as int].1).en);
        assert(f.clr_feeds@[0] == d_ports(at[i as int].0).clr);
        assert(f.clr_feeds@[1] == d_ports(at[i as int].1).clr);
        let own: i32 = lower_z(
            lower_z(f.clk_feeds[0].2, f.clk_n_feeds[0].2),
            lower_z(f.clr_feeds[0].2, f.clr_feeds[1].2),
        );
        if i == 0 {
            z = own;
        } else {
            z = lower_z(z, own);
        }
    }
    z
}

fn lay_trunk(
    g: &mut Grid,
    r: &mut Router,
    net: NetId,
    i: i32,
    reach: u32,
    Ghost(w): Ghost<Works>,
) -> (cells: Vec<Pos>)
    requires
        running(w, *old(r), *old(g)),
        0 <= i <= 2,
        reach <= 0x0900_0000,
    ensures
        running(trunk(w, net, i as int, reach as nat).works, *final(r), *final(g)),
        cells@ == trunk(w, net, i as int, reach as nat).cells,
        tap_ok(cells@),
        still_apart(w.board, trunk(w, net, i as int, reach as nat).works.board),
        final(r).max_expansions == old(r).max_expansions,
        final(r).tuning == old(r).tuning,
{
    let tap: Pos = (-6 - 3 * i, 6, -5);
    assert(tap == ctrl_tap(i as int));
    proof {
        lemma_spine_still_apart(w, net, tap, -1, Material::Clock, Dir::South, reach as nat);
    }
    lay_spine(g, r, net, tap, true, Material::Clock, Dir::South, reach, Ghost(w))
}

/// Flip-flop `i` is fed without any other wire changing hands.
#[verifier::opaque]
pub open spec fn kept_at(
    o: Outer,
    w: Works,
    first: NetId,
    flops: Seq<(Pos, Pos)>,
    ds: Seq<Sig>,
    band: int,
    i: int,
) -> bool {
    let t = trunks_laid(w, first, flops);
    let start = Fed { works: t.works, band };
    flop_kept(o, t, first, flops_fed(o, t, first, start, flops, ds, i as nat), flops[i], ds[i], i as nat)
}

/// The first `n` flip-flops are fed without any other wire changing hands.
pub open spec fn bank_kept(
    o: Outer,
    w: Works,
    first: NetId,
    flops: Seq<(Pos, Pos)>,
    ds: Seq<Sig>,
    band: int,
    n: int,
) -> bool {
    forall|i: int| 0 <= i < n ==> #[trigger] kept_at(o, w, first, flops, ds, band, i)
}

proof fn lemma_kept_at(
    o: Outer,
    w: Works,
    first: NetId,
    flops: Seq<(Pos, Pos)>,
    ds: Seq<Sig>,
    band: int,
    i: int,
    t: Trunks,
    start: Fed,
)
    requires
        t == trunks_laid(w, first, flops),
        start == (Fed { works: t.works, band }),
        flop_kept(o, t, first, flops_fed(o, t, first, start, flops, ds, i as nat), flops[i], ds[i], i as nat),
    ensures
        kept_at(o, w, first, flops, ds, band, i),
{
    reveal(kept_at);
}

/// Connect the register bank: every flip-flop's D, and the shared control lines.
///
/// These are routed last, after all gate fan-in, because they are the longest nets in
/// the build. A control lever drives every flip-flop, so each gets a trunk that runs
/// the length of the bank and is refreshed on the way.
pub fn feed_bank(
    g: &mut Grid,
    r: &mut Router,
    spines: &Vec<Vec<Pos>>,
    flops: &Vec<DffPorts>,
    dffs: &Vec<Dff>,
    bounds: (Pos, Pos),
    band: i32,
    Ghost(o): Ghost<Outer>,
    Ghost(at): Ghost<Seq<(Pos, Pos)>>,
    Ghost(w): Ghost<Works>,
) -> (res: Result<(), String>)
    requires
        running(w, *old(r), *old(g)),
        outer_shown(o, *old(r), spines@, bounds),
        0 <= band < 6,
        spines@.len() <= 0xffff_fffd,
        flops@.len() == dffs@.len(),
        bank_ports(flops@, at),
        flops_within(at, 0x0880_0000),
        forall|i: int| 0 <= i < dffs@.len() ==> (#[trigger] dffs@[i]).d < spines@.len(),
    ensures
        ({
            let after = bank_fed(
                o,
                w,
                spines@.len() as u32,
                at,
                dffs@.map_values(|f: Dff| f.d),
                band as int,
            );
            match res {
                Ok(_) => running(after, *final(r), *final(g)) && still_apart(w.board, after.board) && bank_kept(
                    o,
                    w,
                    spines@.len() as u32,
                    at,
                    dffs@.map_values(|f: Dff| f.d),
                    band as int,
                    at.len() as int,
                ),
                Err(m) => after.stop == Some(m@),
            }
        }),
        final(r).max_expansions == old(r).max_expansions,
        final(r).tuning == old(r).tuning,
{
    if flops.len() == 0 {
        proof {
            lemma_same_still_apart(w.board, w.board);
        }
        return Ok(());
    }
    let ghost ds = dffs@.map_values(|f: Dff| f.d);
    // Control nets get ids past the end of the signal space so they cannot
    // collide with a real signal's keepout.
    let first: NetId = spines.len() as u32;
    // Long enough to run past the deepest flip-flop's pads.
    let z: i32 = find_far_pad(flops, Ghost(at));
    let past: i32 = -5 - z + 8;
    let reach: u32 = if past < SPINE_LEN {
        SPINE_LEN as u32
    } else {
        past as u32
    };
    assert(reach == trunk_reach(at));
    let ghost t = trunks_laid(w, first, at);
    let ghost a = trunk(w, first, 0, reach as nat);
    let clk = lay_trunk(g, r, first, 0, reach, Ghost(w));
    let ghost b = trunk(a.works, (first + 1) as u32, 1, reach as nat);
    let clk_n = lay_trunk(g, r, first + 1, 1, reach, Ghost(a.works));
    let rst = lay_trunk(g, r, first + 2, 2, reach, Ghost(b.works));
    proof {
        lemma_still_apart_trans(w.board, a.works.board, b.works.board);
        lemma_still_apart_trans(w.board, b.works.board, t.works.board);
    }
    let ghost start = Fed { works: t.works, band: band as int };
    let ghost goal = bank_fed(o, w, first, at, ds, band as int);
    let mut next: i32 = band;
    for i in 0..flops.len()
        invariant
            goal == bank_fed(o, w, first, at, ds, band as int),
            goal == flops_fed(o, t, first, start, at, ds, at.len()).works,
            running(flops_fed(o, t, first, start, at, ds, i as nat).works, *r, *g),
            still_apart(w.board, flops_fed(o, t, first, start, at, ds, i as nat).works.board),
            next == flops_fed(o, t, first, start, at, ds, i as nat).band,
            0 <= next < 6,
            t == trunks_laid(w, first, at),
            start == (Fed { works: t.works, band: band as int }),
            bank_kept(o, w, first, at, ds, band as int, i as int),
            outer_shown(o, *r, spines@, bounds),
            t.clk == clk@,
            t.clk_n == clk_n@,
            t.rst == rst@,
            tap_ok(clk@),
            tap_ok(clk_n@),
            tap_ok(rst@),
            first == spines@.len(),
            first <= 0xffff_fffd,
            flops@.len() == dffs@.len(),
            bank_ports(flops@, at),
            flops_within(at, 0x0880_0000),
            ds == dffs@.map_values(|f: Dff| f.d),
            forall|i: int| 0 <= i < dffs@.len() ==> (#[trigger] dffs@[i]).d < spines@.len(),
            r.max_expansions == old(r).max_expansions,
            r.tuning == old(r).tuning,
    {
        let ghost f = flops_fed(o, t, first, start, at, ds, i as nat);
        let d: Sig = dffs[i].d;
        assert(dffs@[i as int].d < spines@.len());
        assert(ds[i as int] == d);
        assert(dff_ports(flops@[i as int], at[i as int].0, at[i as int].1));
        assert(within(at[i as int].0, 0x0880_0000) && within(at[i as int].1, 0x0880_0000));
        match feed_flop(
            g,
            r,
            spines,
            &clk,
            &clk_n,
            &rst,
            first,
            &flops[i],
            d,
            i,
            bounds,
            next,
            Ghost(o),
            Ghost(t),
            Ghost(at[i as int]),
            Ghost(f),
        ) {
            Ok(b) => {
                next = b;
                proof {
                    lemma_kept_at(o, w, first, at, ds, band as int, i as int, t, start);
                    lemma_still_apart_trans(
                        w.board,
                        f.works.board,
                        flops_fed(o, t, first, start, at, ds, (i + 1) as nat).works.board,
                    );
                }
            },
            Err(e) => {
                proof {
                    lemma_fed_stops(o, t, first, start, at, ds, (i + 1) as nat, at.len());
                }
                return Err(e);
            },
        }
    }
    Ok(())
}

} // verus!
