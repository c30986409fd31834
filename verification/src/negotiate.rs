//! Routing the inputs of gates: hardest first, ripping up what is in the way.
use crate::deep::{spans, within};
use crate::floorplan::{all_within, chart_ok, known, Chart, WIDTH_MAX};
use crate::netlist::{gate_operands, Netlist, Sig, Src};
use crate::relay::{
    asked, ended, first_site, find_site, hop, hopped, line_of, line_ok, on_the_way, part_way,
    route_on, sources_ok, span_of, way, Chain, Hop, Line, MAX_DROP, MAX_HOP, RELAY_BANDS,
    STEEP_SLACK,
};
use crate::route::{
    abs, crowds, crowds_before, greater, lemma_has_push, nearest, net_routed, quotient, ripped,
    routed, Board, NetId, Router, Tuning, Works, PREPLACED,
};
use crate::text::{decimal, push_decimal};
use crate::wiring::{feed_at, known_spines, lane_entry, running, spines_within, SPINE_REFRESH};
use crate::world::{pos_label, push_pos, Block, Grid, Material, Pos};
use vstd::prelude::*;
use vstd::string::*;

verus! {

/// Z of the first relay stage, south of every gate spine.
pub const RISER_Z0: i32 = 14;

/// Z between adjacent relay bands.
pub const RELAY_BAND_GAP: i32 = 10;

/// How often a connection may rip others up.
pub const RIPS_MAX: u32 = 6;

/// A connection: a gate input, the net that drives it, where its route ends, and how
/// hard it looks.
#[derive(Clone, Copy)]
pub struct Conn {
    pub gate: Sig,
    pub input: u32,
    pub src: Sig,
    pub feed: Pos,
    pub reach: i64,
}

// --- the work list -----------------------------------------------------------------------

/// How hard a connection looks: its length, dominated by the vertical drop since that
/// is what forces relay staging.
pub open spec fn reach_of(from: Pos, feed: Pos) -> int {
    abs(from.0 - feed.0) + abs(from.2 - feed.2) + 3 * abs(from.1 - feed.1)
}

/// `a` is routed before `b`: it looks harder; its numbers break ties.
pub open spec fn goes_first(a: Conn, b: Conn) -> bool {
    a.reach > b.reach || (a.reach == b.reach && (a.gate < b.gate || (a.gate == b.gate && a.input < b.input)))
}

/// A work list with one more connection in its place.
pub open spec fn with_conn(work: Seq<Conn>, c: Conn) -> Seq<Conn>
    decreases work.len(),
{
    if work.len() > 0 && goes_first(c, work.last()) {
        with_conn(work.drop_last(), c).push(work.last())
    } else {
        work.push(c)
    }
}

/// A work list, and what stopped it.
pub struct Listed {
    pub work: Seq<Conn>,
    pub stop: Option<Seq<char>>,
}

pub open spec fn no_driver_text(s: Sig) -> Seq<char> {
    "signal "@ + decimal(s as nat) + " has no driver"@
}

/// The connection of input `j` of a gate.
pub open spec fn conn_of(base: Pos, gate: Sig, j: int, src: Sig, from: Pos) -> Conn {
    let feed = lane_entry(feed_at(base, j));
    Conn { gate, input: j as u32, src, feed, reach: reach_of(from, feed) as i64 }
}

/// The first `n` inputs of a gate are listed.
pub open spec fn gate_listed(
    l: Listed,
    spine: Map<Sig, Seq<Pos>>,
    base: Pos,
    gate: Sig,
    ops: Seq<Sig>,
    n: nat,
) -> Listed
    decreases n,
{
    if n == 0 {
        l
    } else {
        let before = gate_listed(l, spine, base, gate, ops, (n - 1) as nat);
        let src = ops[n - 1];
        if before.stop is Some {
            before
        } else if !spine.contains_key(src) {
            Listed { stop: Some(no_driver_text(src)), ..before }
        } else {
            Listed { work: with_conn(before.work, conn_of(base, gate, n - 1, src, spine[src][0])), stop: None }
        }
    }
}

/// The inputs of the gates among the first `n` signals.
pub open spec fn work_listed(c: Chart, spine: Map<Sig, Seq<Pos>>, base: Map<Sig, Pos>, n: nat) -> Listed
    decreases n,
{
    if n == 0 {
        Listed { work: Seq::empty(), stop: None }
    } else {
        let before = work_listed(c, spine, base, (n - 1) as nat);
        let g = c.order[n - 1];
        if before.stop is Some || !(c.gates[g as int] is Nor) || !base.contains_key(g) {
            before
        } else {
            let ops = gate_operands(c.gates[g as int]);
            gate_listed(before, spine, base[g], g, ops, ops.len())
        }
    }
}

/// A connection whose ends are known and within range.
pub open spec fn conn_ok(spine: Map<Sig, Seq<Pos>>, c: Conn) -> bool {
    spine.contains_key(c.src) && within(c.feed, 0x0880_0000)
}

pub open spec fn work_ok(spine: Map<Sig, Seq<Pos>>, work: Seq<Conn>) -> bool {
    forall|i: int| 0 <= i < work.len() ==> conn_ok(spine, #[trigger] work[i])
}

proof fn lemma_with_conn(work: Seq<Conn>, c: Conn, k: int)
    requires
        0 <= k <= work.len(),
        forall|i: int| k <= i < work.len() ==> goes_first(c, #[trigger] work[i]),
        k > 0 ==> !goes_first(c, work[k - 1]),
    ensures
        with_conn(work, c) == work.insert(k, c),
    decreases work.len(),
{
    if k == work.len() {
        assert(work.insert(k, c) =~= work.push(c));
    } else {
        let rest = work.drop_last();
        assert(goes_first(c, work[work.len() - 1]));
        assert forall|i: int| k <= i < rest.len() implies goes_first(c, #[trigger] rest[i]) by {
            assert(rest[i] == work[i]);
        }
        lemma_with_conn(rest, c, k);
        assert(work.insert(k, c) =~= rest.insert(k, c).push(work.last()));
    }
}

/// Put a connection in its place.
fn list_conn(work: &mut Vec<Conn>, c: Conn)
    ensures
        final(work)@ == with_conn(old(work)@, c),
        final(work)@.len() == old(work)@.len() + 1,
        forall|i: int|
            0 <= i < final(work)@.len() ==> #[trigger] final(work)@[i] == c || old(work)@.contains(final(work)@[i]),
{
    let mut k: usize = work.len();
    while k > 0
        invariant_except_break
            0 <= k <= work@.len(),
            work@ == old(work)@,
            forall|i: int| k <= i < work@.len() ==> goes_first(c, #[trigger] work@[i]),
        ensures
            0 <= k <= work@.len(),
            work@ == old(work)@,
            forall|i: int| k <= i < work@.len() ==> goes_first(c, #[trigger] work@[i]),
            k > 0 ==> !goes_first(c, work@[k - 1]),
        decreases k,
    {
        let o: Conn = work[k - 1];
        let first = c.reach > o.reach || (c.reach == o.reach && (c.gate < o.gate || (c.gate == o.gate && c.input
            < o.input)));
        if !first {
            break;
        }
        k = k - 1;
    }
    proof {
        lemma_with_conn(work@, c, k as int);
    }
    let ghost had = work@;
    work.insert(k, c);
    assert forall|i: int| 0 <= i < work@.len() implies #[trigger] work@[i] == c || had.contains(work@[i]) by {
        if i < k {
            assert(had[i] == work@[i]);
        } else if i > k {
            assert(had[i - 1] == work@[i]);
        }
    }
}

pub fn no_driver(s: Sig) -> (t: String)
    ensures
        t@ == no_driver_text(s),
{
    let mut t = String::from_str("signal ");
    push_decimal(&mut t, s as u64);
    t.append(" has no driver");
    t
}

proof fn lemma_gate_list_stops(
    l: Listed,
    spine: Map<Sig, Seq<Pos>>,
    base: Pos,
    gate: Sig,
    ops: Seq<Sig>,
    n: nat,
    m: nat,
)
    requires
        gate_listed(l, spine, base, gate, ops, n).stop is Some,
        n <= m,
    ensures
        gate_listed(l, spine, base, gate, ops, m) == gate_listed(l, spine, base, gate, ops, n),
    decreases m,
{
    if n < m {
        lemma_gate_list_stops(l, spine, base, gate, ops, n, (m - 1) as nat);
    }
}

proof fn lemma_work_list_stops(c: Chart, spine: Map<Sig, Seq<Pos>>, base: Map<Sig, Pos>, n: nat, m: nat)
    requires
        work_listed(c, spine, base, n).stop is Some,
        n <= m,
    ensures
        work_listed(c, spine, base, m) == work_listed(c, spine, base, n),
    decreases m,
{
    if n < m {
        lemma_work_list_stops(c, spine, base, n, (m - 1) as nat);
    }
}

/// List the inputs of a gate.
fn list_gate(
    work: &mut Vec<Conn>,
    spines: &Vec<Vec<Pos>>,
    base: Pos,
    gate: Sig,
    ops: &Vec<Sig>,
    Ghost(l): Ghost<Listed>,
) -> (r: Result<(), String>)
    requires
        l.stop is None,
        l.work == old(work)@,
        work_ok(known_spines(spines@), old(work)@),
        spines_within(spines@, 0x0980_0000),
        within(base, 0x0400_0000),
        ops@.len() <= 0x01ff_ffff,
        forall|i: int| 0 <= i < ops@.len() ==> (#[trigger] ops@[i]) < spines@.len(),
    ensures
        ({
            let after = gate_listed(l, known_spines(spines@), base, gate, ops@, ops@.len());
            match r {
                Ok(_) => after.stop is None && after.work == final(work)@ && work_ok(
                    known_spines(spines@),
                    final(work)@,
                ),
                Err(m) => after.stop == Some(m@),
            }
        }),
{
    let ghost spine = known_spines(spines@);
    for j in 0..ops.len()
        invariant
            spine == known_spines(spines@),
            spines_within(spines@, 0x0980_0000),
            within(base, 0x0400_0000),
            ops@.len() <= 0x01ff_ffff,
            forall|i: int| 0 <= i < ops@.len() ==> (#[trigger] ops@[i]) < spines@.len(),
            gate_listed(l, spine, base, gate, ops@, j as nat).stop is None,
            gate_listed(l, spine, base, gate, ops@, j as nat).work == work@,
            work_ok(spine, work@),
    {
        let src: Sig = ops[j];
        assert(ops@[j as int] < spines@.len());
        if spines[src as usize].len() == 0 {
            proof {
                assert(!spine.contains_key(src));
                lemma_gate_list_stops(l, spine, base, gate, ops@, (j + 1) as nat, ops@.len());
            }
            return Err(no_driver(src));
        }
        let from: Pos = spines[src as usize][0];
        assert(within(spines@[src as int]@[0], 0x0980_0000));
        assert(spine.contains_key(src) && spine[src] == spines@[src as int]@);
        let feed: Pos = (base.0 + 2 * j as i32, base.1 + 1, base.2 - 7);
        assert(feed == lane_entry(feed_at(base, j as int)));
        let reach: i64 = span_of(feed.0, from.0) as i64 + span_of(feed.2, from.2) as i64 + 3 * span_of(
            feed.1,
            from.1,
        ) as i64;
        let c = Conn { gate, input: j as u32, src, feed, reach };
        assert(c == conn_of(base, gate, j as int, src, from));
        let ghost had = work@;
        list_conn(work, c);
        assert forall|i: int| 0 <= i < work@.len() implies conn_ok(spine, #[trigger] work@[i]) by {
            if work@[i] != c {
                let k = choose|k: int| 0 <= k < had.len() && had[k] == work@[i];
                assert(conn_ok(spine, had[k]));
            }
        }
    }
    Ok(())
}

/// The inputs of a gate come before it.
proof fn lemma_inputs(net: &Netlist, x: Sig)
    requires
        net.wf(),
        x < net.gates().len(),
    ensures
        forall|i: int|
            0 <= i < gate_operands(net.gates()[x as int]).len() ==> (#[trigger] gate_operands(
                net.gates()[x as int],
            )[i]) < net.gates().len(),
{
    assert(crate::netlist::gate_wf(net.gates()[x as int], x as int, net.dffs@.len()));

}

/// List the inputs of all gates, hardest first.
///
/// Routing in level order does the short local nets first, and their keepout then
/// walls off the long ones that had far fewer options to begin with. Sorting by
/// descending difficulty gives the constrained nets first pick.
pub fn list_work(
    net: &Netlist,
    order: &Vec<Sig>,
    spines: &Vec<Vec<Pos>>,
    base: &Vec<Option<Pos>>,
    Ghost(c): Ghost<Chart>,
) -> (r: Result<Vec<Conn>, String>)
    requires
        net.wf(),
        c.gates == net.gates(),
        c.order == order@,
        chart_ok(c),
        base@.len() == c.gates.len(),
        spines@.len() == c.gates.len(),
        spines_within(spines@, 0x0980_0000),
        all_within(known(base@), 0x0400_0000),
    ensures
        ({
            let after = work_listed(c, known_spines(spines@), known(base@), c.order.len());
            match r {
                Ok(work) => after.stop is None && after.work == work@ && work_ok(
                    known_spines(spines@),
                    work@,
                ),
                Err(m) => after.stop == Some(m@),
            }
        }),
{
    let ghost spine = known_spines(spines@);
    let mut work: Vec<Conn> = Vec::new();
    for i in 0..order.len()
        invariant
            spine == known_spines(spines@),
            net.wf(),
            c.gates == net.gates(),
            c.order == order@,
            chart_ok(c),
            base@.len() == c.gates.len(),
            spines@.len() == c.gates.len(),
            spines_within(spines@, 0x0980_0000),
            all_within(known(base@), 0x0400_0000),
            work_listed(c, spine, known(base@), i as nat).stop is None,
            work_listed(c, spine, known(base@), i as nat).work == work@,
            work_ok(spine, work@),
    {
        let x: Sig = order[i];
        assert(c.order[i as int] < c.gates.len());
        assert(net.gates()[x as int] == net.sigs@[x as int]@);
        let is_nor = match &net.sigs[x as usize] {
            Src::Nor(_) => true,
            _ => false,
        };
        if is_nor {
            match base[x as usize] {
                Some(b) => {
                    assert(known(base@).contains_key(x) && known(base@)[x] == b);
                    let ops = net.operands(x);
                    let ghost before = work_listed(c, spine, known(base@), i as nat);
                    assert(2 * gate_operands(c.gates[x as int]).len() <= WIDTH_MAX);
                    proof {
                        lemma_inputs(net, x);
                    }
                    match list_gate(&mut work, spines, b, x, &ops, Ghost(before)) {
                        Ok(_) => {},
                        Err(e) => {
                            proof {
                                lemma_work_list_stops(c, spine, known(base@), (i + 1) as nat, order@.len());
                            }
                            return Err(e);
                        },
                    }
                },
                None => {
                    assert(!known(base@).contains_key(x));
                },
            }
        }
    }
    Ok(work)
}

// --- one connection ----------------------------------------------------------------------

/// What the connections share.
pub struct Nets {
    pub tuning: Tuning,
    pub max_expansions: usize,
    pub bounds: (Pos, Pos),
    pub work: Seq<Conn>,
    pub spine: Map<Sig, Seq<Pos>>,
}

pub open spec fn net_line(n: Nets, net: NetId) -> Line {
    Line {
        tuning: n.tuning,
        max_expansions: n.max_expansions,
        net,
        bounds: n.bounds,
        material: Material::Wire,
    }
}

/// How many hops a connection takes: by its drop, by its reach along X, and two at
/// least where it is steep.
pub open spec fn conn_hops(first: Pos, feed: Pos) -> int {
    let drop = first.1 - feed.1;
    let span = abs(feed.0 - first.0);
    let v = if drop > MAX_DROP {
        (drop + MAX_DROP - 1) / MAX_DROP as int
    } else {
        1
    };
    let h = if span > MAX_HOP {
        (span + MAX_HOP - 1) / MAX_HOP as int
    } else {
        1
    };
    let steep = if drop * STEEP_SLACK > span + abs(feed.2 - first.2) {
        2
    } else {
        1
    };
    greater(greater(v, h), steep)
}

/// Successive relays of a connection are no deeper below each other than dust can fall
/// in one go.
pub proof fn lemma_stages_shallow(first: Pos, feed: Pos)
    ensures
        conn_hops(first, feed) >= 1,
        quotient(first.1 - feed.1, conn_hops(first, feed)) <= MAX_DROP,
        first.1 - feed.1 > MAX_DROP ==> conn_hops(first, feed) >= 2,
{
    let drop = first.1 - feed.1;
    let n = conn_hops(first, feed);
    if drop > MAX_DROP {
        assert(n * 12 >= drop);
        assert(drop / n <= 12) by (nonlinear_arith)
            requires
                n >= 1,
                n * 12 >= drop,
                drop >= 0,
        ;
    } else if drop >= 0 {
        assert(drop / n <= drop) by (nonlinear_arith)
            requires
                n >= 1,
                drop >= 0,
        ;
    } else {
        assert((-drop) / n >= 0) by (nonlinear_arith)
            requires
                n >= 1,
                drop < 0,
        ;
    }
}

/// About where the relay of a stage goes: part of the way along X and Y, in a band
/// along Z.
#[verifier::opaque]
pub open spec fn relay_near(first: Pos, feed: Pos, band: int, stage: int) -> Pos {
    let n = conn_hops(first, feed);
    (
        part_way(first.0 as int, feed.0 as int, stage, n) as i32,
        (first.1 - stage * quotient(first.1 - feed.1, n)) as i32,
        (RISER_Z0 + band * RELAY_BAND_GAP + (stage % 2) * 4) as i32,
    )
}

/// The place for a relay.
#[verifier::opaque]
pub open spec fn clear_site(b: Board, cells: Map<Pos, Block>, near: Pos, net: NetId) -> Option<Pos> {
    first_site(b, cells, near, net, 0)
}

pub open spec fn into_text(c: Conn) -> Seq<char> {
    " into gate "@ + decimal(c.gate as nat) + " input "@ + decimal(c.input as nat)
}

pub open spec fn no_relay_text(near: Pos, c: Conn) -> Seq<char> {
    "no clear relay site near "@ + pos_label(near) + " for net "@ + decimal(c.src as nat)
        + "                         "@ + into_text(c)
}

pub open spec fn relay_text(stage: int, c: Conn) -> Seq<char> {
    "relay stage "@ + decimal(stage as nat) + " for net "@ + decimal(c.src as nat) + into_text(c) + ": "@
}

pub open spec fn routing_text(c: Conn) -> Seq<char> {
    "routing net "@ + decimal(c.src as nat) + into_text(c) + ": "@
}

/// The first `n` hops of a connection. A branch may leave from the cell just before
/// a refresh repeater, so the first hop carries that much decay.
pub open spec fn conn_chain(l: Line, w: Works, sources: Seq<Pos>, c: Conn, band: int, n: nat) -> Chain
    decreases n,
{
    if n == 0 {
        Chain { works: w, from: sources, carry: (SPINE_REFRESH - 1) as i32, stalled: None }
    } else {
        let before = conn_chain(l, w, sources, c, band, (n - 1) as nat);
        if ended(before) {
            before
        } else {
            let near = relay_near(sources[0], c.feed, band, n as int);
            match clear_site(before.works.board, before.works.cells, near, l.net) {
                None => Chain {
                    works: Works { stop: Some(no_relay_text(near, c)), ..before.works },
                    ..before
                },
                Some(site) => hopped(l, before, site, relay_text(n as int, c)),
            }
        }
    }
}

/// How a connection went: the works, the route that could not be found, and whether
/// that was the last hop.
pub struct Tried {
    pub works: Works,
    pub stalled: Option<Seq<char>>,
    pub last: bool,
}

pub open spec fn conn_landed(l: Line, ch: Chain, c: Conn) -> Tried {
    if ended(ch) {
        Tried { works: ch.works, stalled: ch.stalled, last: false }
    } else {
        let r = net_routed(asked(l, ch.from, c.feed, ch.carry), ch.works.board, ch.works.cells);
        match r.stop {
            Some(e) => Tried {
                works: Works { stop: None, ..r },
                stalled: Some(routing_text(c) + e),
                last: true,
            },
            None => Tried { works: r, stalled: None, last: true },
        }
    }
}

/// A connection is tried: hop by hop over relays, then to its feed.
#[verifier::opaque]
pub open spec fn conn_tried(l: Line, w: Works, sources: Seq<Pos>, c: Conn, band: int) -> Tried {
    conn_landed(
        l,
        conn_chain(l, w, sources, c, band, (conn_hops(sources[0], c.feed) - 1) as nat),
        c,
    )
}

proof fn lemma_conn_ends(l: Line, w: Works, sources: Seq<Pos>, c: Conn, band: int, n: nat, m: nat)
    requires
        ended(conn_chain(l, w, sources, c, band, n)),
        n <= m,
    ensures
        conn_chain(l, w, sources, c, band, m) == conn_chain(l, w, sources, c, band, n),
    decreases m,
{
    if n < m {
        lemma_conn_ends(l, w, sources, c, band, n, (m - 1) as nat);
    }
}

fn push_into(s: &mut String, c: Conn)
    ensures
        final(s)@ == old(s)@ + into_text(c),
{
    s.append(" into gate ");
    push_decimal(s, c.gate as u64);
    s.append(" input ");
    push_decimal(s, c.input as u64);
    assert(s@ =~= old(s)@ + into_text(c));
}

fn no_relay(near: Pos, c: Conn) -> (s: String)
    ensures
        s@ == no_relay_text(near, c),
{
    let mut s = String::from_str("no clear relay site near ");
    push_pos(&mut s, near);
    s.append(" for net ");
    push_decimal(&mut s, c.src as u64);
    s.append("                         ");
    push_into(&mut s, c);
    s
}

fn relay_label(stage: i32, c: Conn) -> (s: String)
    requires
        0 <= stage,
    ensures
        s@ == relay_text(stage as int, c),
{
    let mut s = String::from_str("relay stage ");
    push_decimal(&mut s, stage as u64);
    s.append(" for net ");
    push_decimal(&mut s, c.src as u64);
    push_into(&mut s, c);
    s.append(": ");
    s
}

fn routing_label(c: Conn) -> (s: String)
    ensures
        s@ == routing_text(c),
{
    let mut s = String::from_str("routing net ");
    push_decimal(&mut s, c.src as u64);
    push_into(&mut s, c);
    s.append(": ");
    s
}

fn count_conn_hops(first: Pos, feed: Pos) -> (n: i32)
    requires
        within(first, 0x0980_0000),
        within(feed, 0x0880_0000),
    ensures
        n == conn_hops(first, feed),
        1 <= n <= 0x0400_0000,
{
    let drop: i32 = first.1 - feed.1;
    let span: i32 = span_of(first.0, feed.0);
    let v: i32 = if drop > MAX_DROP {
        (drop + MAX_DROP - 1) / MAX_DROP
    } else {
        1
    };
    let h: i32 = if span > MAX_HOP {
        (span + MAX_HOP - 1) / MAX_HOP
    } else {
        1
    };
    let steep: i32 = if drop * STEEP_SLACK > span + span_of(first.2, feed.2) {
        2
    } else {
        1
    };
    let n: i32 = if v < h {
        h
    } else {
        v
    };
    if n < steep {
        steep
    } else {
        n
    }
}

/// A part of a drop is no more than the drop.
pub proof fn lemma_drop(drop: int, stage: int, n: int)
    requires
        0 <= stage <= n,
        0 < n,
    ensures
        drop >= 0 ==> 0 <= stage * quotient(drop, n) <= drop,
        drop <= 0 ==> drop <= stage * quotient(drop, n) <= 0,
{
    let d = abs(drop);
    let q = d / n;
    assert(0 <= q && q * n <= d) by (nonlinear_arith)
        requires
            n > 0,
            d >= 0,
            q == d / n,
    ;
    assert(0 <= stage * q <= q * n) by (nonlinear_arith)
        requires
            0 <= stage <= n,
            q >= 0,
    ;
    assert(stage * (-q) == -(stage * q)) by (nonlinear_arith);
}

fn relay_place(first: Pos, feed: Pos, band: i32, stage: i32, n: i32) -> (p: Pos)
    requires
        within(first, 0x0980_0000),
        within(feed, 0x0880_0000),
        n == conn_hops(first, feed),
        0 <= stage <= n,
        0 < n <= 0x0400_0000,
        0 <= band < 6,
    ensures
        p == relay_near(first, feed, band as int, stage as int),
        within(p, 0x0aff_e000),
{
    proof {
        reveal(relay_near);
        lemma_drop(first.1 - feed.1, stage as int, n as int);
    }
    let drop: i32 = first.1 - feed.1;
    let q: i32 = if drop < 0 {
        -((-drop) / n)
    } else {
        drop / n
    };
    assert(q == quotient(drop as int, n as int));
    (
        way(first.0, feed.0, stage, n),
        first.1 - stage * q,
        RISER_Z0 + band * RELAY_BAND_GAP + (stage % 2) * 4,
    )
}

/// Try a connection.
fn try_conn(
    g: &mut Grid,
    r: &mut Router,
    sources: &Vec<Pos>,
    c: Conn,
    bounds: (Pos, Pos),
    band: i32,
    hops: i32,
    Ghost(w): Ghost<Works>,
) -> (res: Result<Option<(String, bool)>, String>)
    requires
        running(w, *old(r), *old(g)),
        line_ok(line_of(*old(r), c.src, bounds, Material::Wire)),
        sources_ok(sources@),
        within(sources@[0], 0x0980_0000),
        within(c.feed, 0x0880_0000),
        0 <= band < 6,
        hops == conn_hops(sources@[0], c.feed),
        1 <= hops <= 0x0400_0000,
    ensures
        ({
            let after = conn_tried(
                line_of(*old(r), c.src, bounds, Material::Wire),
                w,
                sources@,
                c,
                band as int,
            );
            match res {
                Ok(None) => running(after.works, *final(r), *final(g)) && after.stalled is None,
                Ok(Some((m, last))) => running(after.works, *final(r), *final(g)) && after.stalled == Some(
                    m@,
                ) && after.last == last,
                Err(m) => after.works.stop == Some(m@),
            }
        }),
        final(r).max_expansions == old(r).max_expansions,
        final(r).tuning == old(r).tuning,
{
    proof {
        reveal(conn_tried);
    }
    let ghost l = line_of(*r, c.src, bounds, Material::Wire);
    let first: Pos = sources[0];
    let mut from: Vec<Pos> = Vec::new();
    for i in 0..sources.len()
        invariant
            from@ == sources@.take(i as int),
    {
        from.push(sources[i]);
        assert(sources@.take(i + 1) =~= sources@.take(i as int).push(sources@[i as int]));
    }
    assert(sources@.take(sources@.len() as int) =~= sources@);
    let mut carry: i32 = SPINE_REFRESH - 1;
    let mut stage: i32 = 1;
    let ghost full = (hops - 1) as nat;
    while stage < hops
        invariant
            l == line_of(*r, c.src, bounds, Material::Wire),
            l == line_of(*old(r), c.src, bounds, Material::Wire),
            line_ok(l),
            0 <= band < 6,
            sources@.len() > 0,
            first == sources@[0],
            within(first, 0x0980_0000),
            within(c.feed, 0x0880_0000),
            hops == conn_hops(first, c.feed),
            1 <= stage <= hops <= 0x0400_0000,
            full == hops - 1,
            conn_tried(l, w, sources@, c, band as int) == conn_landed(
                l,
                conn_chain(l, w, sources@, c, band as int, full),
                c,
            ),
            on_the_way(conn_chain(l, w, sources@, c, band as int, (stage - 1) as nat), *r, *g, from@, carry),
            r.max_expansions == old(r).max_expansions,
            r.tuning == old(r).tuning,
        ensures
            on_the_way(conn_chain(l, w, sources@, c, band as int, full), *r, *g, from@, carry),
        decreases hops - stage,
    {
        let ghost ch = conn_chain(l, w, sources@, c, band as int, (stage - 1) as nat);
        let near = relay_place(first, c.feed, band, stage, hops);
        let ghost after = conn_chain(l, w, sources@, c, band as int, stage as nat);
        proof {
            reveal(clear_site);
            if ended(after) {
                lemma_conn_ends(l, w, sources@, c, band as int, stage as nat, full);
            }
        }
        let site = match find_site(r, g, near, c.src) {
            Some(s) => s,
            None => {
                return Err(no_relay(near, c));
            },
        };
        match hop(
            g,
            r,
            c.src,
            &from,
            site,
            bounds,
            Material::Wire,
            carry,
            relay_label(stage, c),
            Ghost(ch),
        ) {
            Ok(Hop::Arrived(p)) => {
                from = Vec::new();
                from.push(p);
                assert(from@ =~= seq![p]);
                carry = 0;
            },
            Ok(Hop::Stalled(m)) => {
                return Ok(Some((m, false)));
            },
            Err(m) => {
                return Err(m);
            },
        }
        stage = stage + 1;
    }
    let ghost ch = conn_chain(l, w, sources@, c, band as int, full);
    match route_on(g, r, c.src, &from, c.feed, bounds, Material::Wire, carry, Ghost(ch.works)) {
        Ok(_) => Ok(None),
        Err(e) => {
            let mut m = routing_label(c);
            m.append(e.as_str());
            Ok(Some((m, true)))
        },
    }
}

// --- who is in the way ---------------------------------------------------------------------

/// The nets with wire within `radius` of `p`, nearest first.
pub open spec fn are_crowders(b: Board, p: Pos, radius: int, exclude: NetId, s: Seq<NetId>) -> bool {
    &&& s.no_duplicates()
    &&& forall|n: NetId| #[trigger]
        s.contains(n) <==> n != exclude && n != PREPLACED && crowds(b, p, radius, n)
    &&& forall|i: int, j: int| 0 <= i < j < s.len() ==> crowds_before(b, p, #[trigger] s[i], #[trigger] s[j])
}

pub open spec fn crowders_of(b: Board, p: Pos, radius: int, exclude: NetId) -> Seq<NetId> {
    choose|s: Seq<NetId>| are_crowders(b, p, radius, exclude, s)
}

proof fn lemma_one_way(b: Board, p: Pos, x: NetId, y: NetId)
    requires
        crowds_before(b, p, x, y),
    ensures
        !crowds_before(b, p, y, x),
{
    if crowds_before(b, p, y, x) {
        let (d, e) = choose|d: int, e: int| #[trigger] nearest(b, p, x, d) && #[trigger] nearest(b, p, y, e) && (d
            < e || (d == e && x < y));
        let (f, h) = choose|f: int, h: int| #[trigger] nearest(b, p, y, f) && #[trigger] nearest(b, p, x, h) && (f
            < h || (f == h && y < x));
        lemma_nearest(b, p, x, d, h);
        lemma_nearest(b, p, y, e, f);
    }
}

proof fn lemma_nearest(b: Board, p: Pos, x: NetId, d: int, e: int)
    requires
        nearest(b, p, x, d),
        nearest(b, p, x, e),
    ensures
        d == e,
{
    let c = choose|c: Pos| #[trigger] b.owner.contains_key(c) && b.owner[c] == x && crate::route::distance(c, p) == d;
    let f = choose|f: Pos| #[trigger] b.owner.contains_key(f) && b.owner[f] == x && crate::route::distance(f, p) == e;
    assert(crate::route::distance(c, p) >= e);
    assert(crate::route::distance(f, p) >= d);
}

proof fn lemma_same_until(b: Board, p: Pos, radius: int, ex: NetId, s: Seq<NetId>, t: Seq<NetId>, n: int)
    requires
        are_crowders(b, p, radius, ex, s),
        are_crowders(b, p, radius, ex, t),
        0 <= n <= s.len(),
    ensures
        n <= t.len(),
        forall|i: int| 0 <= i < n ==> s[i] == t[i],
    decreases n,
{
    if n > 0 {
        lemma_same_until(b, p, radius, ex, s, t, n - 1);
        let x = s[n - 1];
        assert(s.contains(x));
        assert(t.contains(x));
        let m = choose|m: int| 0 <= m < t.len() && t[m] == x;
        if m < n - 1 {
            assert(s[m] == x);
        }
        if m > n - 1 {
            let y = t[n - 1];
            assert(crowds_before(b, p, t[n - 1], t[m]));
            assert(t.contains(y));
            assert(s.contains(y));
            let k = choose|k: int| 0 <= k < s.len() && s[k] == y;
            if k < n - 1 {
                assert(t[k] == y);
            } else if k == n - 1 {
                assert(t[n - 1] == t[m]);
            } else {
                assert(crowds_before(b, p, s[n - 1], s[k]));
                lemma_one_way(b, p, x, y);
            }
        }
    }
}

/// There is one order of the crowders.
proof fn lemma_crowders(b: Board, p: Pos, radius: int, ex: NetId, s: Seq<NetId>)
    requires
        are_crowders(b, p, radius, ex, s),
    ensures
        s == crowders_of(b, p, radius, ex),
{
    let t = crowders_of(b, p, radius, ex);
    lemma_same_until(b, p, radius, ex, s, t, s.len() as int);
    lemma_same_until(b, p, radius, ex, t, s, t.len() as int);
    assert(s =~= t);
}

/// The first sequence, and what the first `n` of the second add to it.
pub open spec fn merged(a: Seq<NetId>, b: Seq<NetId>, n: nat) -> Seq<NetId>
    decreases n,
{
    if n == 0 {
        a
    } else {
        let before = merged(a, b, (n - 1) as nat);
        if before.contains(b[n - 1]) {
            before
        } else {
            before.push(b[n - 1])
        }
    }
}

/// The nets that are ripped up for a connection: the nearest of those that crowd its
/// feed, then of those that crowd its driver.
#[verifier::opaque]
pub open spec fn victims_of(b: Board, feed: Pos, first: Pos, net: NetId, most: nat) -> Seq<NetId> {
    let far = crowders_of(b, first, 20, net);
    let all = merged(crowders_of(b, feed, 24, net), far, far.len());
    if all.len() < most {
        all
    } else {
        all.take(most as int)
    }
}

/// Look at both ends. A connection stalls just as often because its own driver is
/// boxed in as because the destination is.
fn find_victims(r: &Router, feed: Pos, first: Pos, net: NetId, most: usize) -> (v: Vec<NetId>)
    ensures
        v@ == victims_of(r@, feed, first, net, most as nat),
{
    proof {
        reveal(victims_of);
    }
    let mut all = r.crowders(feed, 24, net);
    let far = r.crowders(first, 20, net);
    proof {
        assert(are_crowders(r@, feed, 24, net, all@));
        assert(are_crowders(r@, first, 20, net, far@));
        lemma_crowders(r@, feed, 24, net, all@);
        lemma_crowders(r@, first, 20, net, far@);
    }
    let ghost near = all@;
    for i in 0..far.len()
        invariant
            all@ == merged(near, far@, i as nat),
    {
        let n: NetId = far[i];
        let mut found = false;
        for k in 0..all.len()
            invariant
                found == all@.take(k as int).contains(n),
        {
            let ghost part = all@.take(k as int);
            if all[k] == n {
                found = true;
            }
            proof {
                assert(all@.take(k + 1) =~= part.push(all@[k as int]));
                lemma_has_push(part, all@[k as int], n);
            }
        }
        assert(all@.take(all@.len() as int) =~= all@);
        if !found {
            all.push(n);
        }
    }
    if all.len() > most {
        all.truncate(most);
    }
    assert(all@ =~= victims_of(r@, feed, first, net, most as nat));
    all
}

// --- the queue -----------------------------------------------------------------------------

/// The routing of all connections so far: which of them wait and which are done, by
/// their places in the work list, how often each has ripped others up, and the band of
/// the next chain of relays.
pub struct Queue {
    pub works: Works,
    pub waiting: Seq<int>,
    pub done: Seq<int>,
    pub tries: Seq<int>,
    pub band: int,
}

/// Nothing is left to do.
pub open spec fn is_over(q: Queue) -> bool {
    q.works.stop is Some || q.waiting.len() == 0
}

/// The connections of `net` among the first `k` of `done`, or those of other nets.
pub open spec fn share(work: Seq<Conn>, done: Seq<int>, net: NetId, own: bool, k: nat) -> Seq<int>
    decreases k,
{
    if k == 0 {
        Seq::empty()
    } else {
        let before = share(work, done, net, own, (k - 1) as nat);
        if (work[done[k - 1]].src == net) == own {
            before.push(done[k - 1])
        } else {
            before
        }
    }
}

/// The first `k` victims are ripped up, and their connections wait again.
pub open spec fn cleared(work: Seq<Conn>, q: Queue, victims: Seq<NetId>, k: nat) -> Queue
    decreases k,
{
    if k == 0 {
        q
    } else {
        let before = cleared(work, q, victims, (k - 1) as nat);
        let v = victims[k - 1];
        Queue {
            works: Works {
                board: ripped(before.works.board, v),
                cells: before.works.cells.remove_keys(
                    Set::new(|p: Pos| routed(before.works.board, v, p)),
                ),
                stop: before.works.stop,
            },
            waiting: before.waiting + share(work, before.done, v, true, before.done.len()),
            done: share(work, before.done, v, false, before.done.len()),
            ..before
        }
    }
}

/// How many nets a stalled connection may rip up at once.
pub open spec fn victims_max(last: bool) -> nat {
    if last {
        3
    } else {
        4
    }
}

/// What is said when a connection is given up, `spent` having ripped often enough.
pub open spec fn given_up_text(e: Seq<char>, last: bool, spent: bool, done: nat, all: nat) -> Seq<char> {
    e + "\nnote: "@ + decimal(done) + " of "@ + decimal(all) + if !last {
        " routed"@
    } else if spent {
        " connections routed, and ripping up the neighbours 6 times did not free a path"@
    } else {
        " connections routed, and nothing was near enough to rip up"@
    }
}

/// A stalled connection rips others up and stays at the front, or all is given up.
pub open spec fn stalled(n: Nets, q: Queue, t: Tried, i: int) -> Queue {
    let c = n.work[i];
    let tries = q.tries[i] + 1;
    let first = n.spine[c.src][0];
    let victims = victims_of(t.works.board, c.feed, first, c.src, victims_max(t.last));
    if tries > RIPS_MAX || victims.len() == 0 {
        Queue {
            works: Works {
                stop: Some(
                    given_up_text(t.stalled->0, t.last, tries > RIPS_MAX, q.done.len(), n.work.len()),
                ),
                ..t.works
            },
            ..q
        }
    } else {
        cleared(
            n.work,
            Queue { works: t.works, tries: q.tries.update(i, tries), ..q },
            victims,
            victims.len(),
        )
    }
}

/// The connection at the front is tried.
pub open spec fn turn(n: Nets, q: Queue) -> Queue {
    let i = q.waiting[0];
    let c = n.work[i];
    let sources = n.spine[c.src];
    let t = conn_tried(net_line(n, c.src), q.works, sources, c, q.band);
    let next = Queue {
        band: if conn_hops(sources[0], c.feed) > 1 {
            (q.band + 1) % (RELAY_BANDS as int)
        } else {
            q.band
        },
        ..q
    };
    if t.works.stop is Some {
        Queue { works: t.works, ..next }
    } else if t.stalled is None {
        Queue { works: t.works, waiting: q.waiting.skip(1), done: q.done.push(i), ..next }
    } else {
        stalled(n, next, t, i)
    }
}

/// The queue after `k` turns.
pub open spec fn turned(n: Nets, q: Queue, k: nat) -> Queue
    decreases k,
{
    if k == 0 {
        q
    } else {
        let before = turned(n, q, (k - 1) as nat);
        if is_over(before) {
            before
        } else {
            turn(n, before)
        }
    }
}

/// The queue when nothing is left to do.
pub open spec fn settled(n: Nets, q: Queue) -> Queue {
    turned(n, q, choose|k: nat| is_over(#[trigger] turned(n, q, k)))
}

/// Every connection waits.
pub open spec fn all_waiting(w: Works, total: nat) -> Queue {
    Queue {
        works: w,
        waiting: Seq::new(total, |i: int| i),
        done: Seq::empty(),
        tries: Seq::new(total, |i: int| 0int),
        band: 0,
    }
}

/// A queue that is over stays as it is.
proof fn lemma_over(n: Nets, q: Queue, k: nat, m: nat)
    requires
        is_over(turned(n, q, k)),
        k <= m,
    ensures
        turned(n, q, m) == turned(n, q, k),
    decreases m,
{
    if k < m {
        lemma_over(n, q, k, (m - 1) as nat);
    }
}

/// However many turns it takes, the outcome is the same.
pub proof fn lemma_settled(n: Nets, q: Queue, k: nat)
    requires
        is_over(turned(n, q, k)),
    ensures
        settled(n, q) == turned(n, q, k),
{
    let m = choose|m: nat| is_over(#[trigger] turned(n, q, m));
    if m <= k {
        lemma_over(n, q, m, k);
    } else {
        lemma_over(n, q, k, m);
    }
}

/// What the tries leave, summed up.
spec fn slack(tries: Seq<int>, k: nat) -> int
    decreases k,
{
    if k == 0 {
        0
    } else {
        slack(tries, (k - 1) as nat) + 7 - tries[k - 1]
    }
}

proof fn lemma_slack(tries: Seq<int>, i: int, v: int, k: nat)
    requires
        0 <= i < tries.len(),
        k <= tries.len(),
    ensures
        slack(tries.update(i, v), k) == slack(tries, k) - if i < k {
            v - tries[i]
        } else {
            0
        },
    decreases k,
{
    if k > 0 {
        lemma_slack(tries, i, v, (k - 1) as nat);
    }
}

proof fn lemma_slack_low(tries: Seq<int>, k: nat)
    requires
        k <= tries.len(),
        forall|i: int| 0 <= i < tries.len() ==> (#[trigger] tries[i]) <= 6,
    ensures
        slack(tries, k) >= 0,
    decreases k,
{
    if k > 0 {
        lemma_slack_low(tries, (k - 1) as nat);
    }
}

spec fn indices(v: Seq<usize>) -> Seq<int> {
    v.map_values(|i: usize| i as int)
}

spec fn counts(v: Seq<u32>) -> Seq<int> {
    v.map_values(|i: u32| i as int)
}

spec fn all_below(v: Seq<usize>, n: nat) -> bool {
    forall|i: int| 0 <= i < v.len() ==> (#[trigger] v[i]) < n
}

/// Put the connections of a net back, and keep the others.
fn put_back(work: &Vec<Conn>, queue: &mut Vec<usize>, done: &Vec<usize>, v: NetId) -> (keep: Vec<usize>)
    requires
        all_below(done@, work@.len()),
        all_below(old(queue)@, work@.len()),
    ensures
        all_below(keep@, work@.len()),
        all_below(final(queue)@, work@.len()),
        indices(keep@) == share(work@, indices(done@), v, false, done@.len()),
        final(queue)@.len() >= old(queue)@.len(),
        final(queue)@.take(old(queue)@.len() as int) == old(queue)@,
        indices(final(queue)@) == indices(old(queue)@) + share(work@, indices(done@), v, true, done@.len()),
{
    let mut keep: Vec<usize> = Vec::new();
    let ghost had = queue@;
    let ghost d = indices(done@);
    assert(indices(keep@) =~= Seq::empty());
    assert(queue@.take(had.len() as int) =~= had);
    assert(indices(had) + share(work@, d, v, true, 0) =~= indices(had));
    for k in 0..done.len()
        invariant
            d == indices(done@),
            had == old(queue)@,
            all_below(done@, work@.len()),
            all_below(queue@, work@.len()),
            all_below(keep@, work@.len()),
            indices(keep@) == share(work@, d, v, false, k as nat),
            queue@.len() >= had.len(),
            queue@.take(had.len() as int) == had,
            indices(queue@) == indices(had) + share(work@, d, v, true, k as nat),
    {
        let i: usize = done[k];
        let ghost q = queue@;
        let ghost kept = keep@;
        assert(d[k as int] == i);
        if work[i].src == v {
            queue.push(i);
            assert(indices(queue@) =~= indices(q).push(i as int));
            assert(indices(queue@) =~= indices(had) + share(work@, d, v, true, k as nat).push(i as int));
            assert(queue@.take(had.len() as int) =~= q.take(had.len() as int));
        } else {
            keep.push(i);
            assert(indices(keep@) =~= indices(kept).push(i as int));
        }
    }
    keep
}

fn given_up(e: String, last: bool, spent: bool, done: usize, all: usize) -> (s: String)
    ensures
        s@ == given_up_text(e@, last, spent, done as nat, all as nat),
{
    let mut s = e;
    s.append("\nnote: ");
    push_decimal(&mut s, done as u64);
    s.append(" of ");
    push_decimal(&mut s, all as u64);
    if !last {
        s.append(" routed");
    } else if spent {
        s.append(" connections routed, and ripping up the neighbours 6 times did not free a path");
    } else {
        s.append(" connections routed, and nothing was near enough to rip up");
    }
    s
}

/// The queue is as a ghost queue says.
spec fn queue_shown(
    n: Nets,
    q: Queue,
    r: Router,
    g: Grid,
    queue: Seq<usize>,
    head: int,
    done: Seq<usize>,
    tries: Seq<u32>,
    band: i32,
) -> bool {
    &&& running(q.works, r, g)
    &&& 0 <= head <= queue.len()
    &&& q.waiting == indices(queue).skip(head)
    &&& q.done == indices(done)
    &&& q.tries == counts(tries)
    &&& q.band == band
    &&& 0 <= band < 6
    &&& tries.len() == n.work.len()
    &&& all_below(queue, n.work.len())
    &&& all_below(done, n.work.len())
    &&& r.tuning == n.tuning
    &&& r.max_expansions == n.max_expansions
    &&& forall|i: int| 0 <= i < tries.len() ==> (#[trigger] tries[i]) <= 6
}

/// The nets can be routed.
pub open spec fn nets_ok(n: Nets) -> bool {
    &&& line_ok(net_line(n, 0))
    &&& work_ok(n.spine, n.work)
}

/// Rip the victims up.
fn clear_for(
    g: &mut Grid,
    r: &mut Router,
    work: &Vec<Conn>,
    victims: &Vec<NetId>,
    queue: &mut Vec<usize>,
    done: Vec<usize>,
    head: usize,
    tries: &Vec<u32>,
    band: i32,
    Ghost(n): Ghost<Nets>,
    Ghost(q): Ghost<Queue>,
) -> (kept: Vec<usize>)
    requires
        n.work == work@,
        queue_shown(n, q, *old(r), *old(g), old(queue)@, head as int, done@, tries@, band),
    ensures
        queue_shown(
            n,
            cleared(n.work, q, victims@, victims@.len()),
            *final(r),
            *final(g),
            final(queue)@,
            head as int,
            kept@,
            tries@,
            band,
        ),
{
    let mut done = done;
    for k in 0..victims.len()
        invariant
            n.work == work@,
            queue_shown(n, cleared(n.work, q, victims@, k as nat), *r, *g, queue@, head as int, done@, tries@, band),
    {
        let v: NetId = victims[k];
        let ghost before = cleared(n.work, q, victims@, k as nat);
        let ghost had = queue@;
        let ghost was = g@;
        let _gone = r.rip(g, v);
        let keep = put_back(work, queue, &done, v);
        proof {
            let more = share(work@, indices(done@), v, true, done@.len());
            assert(indices(queue@).skip(head as int) =~= indices(had).skip(head as int) + more);
            assert(spans(g@, 0x0b00_0000)) by {
                assert forall|p: Pos| #[trigger] g@.contains_key(p) implies within(p, 0x0b00_0000) by {
                    assert(was.contains_key(p));
                }
            }
        }
        done = keep;
    }
    done
}

/// Route every gate input, hardest first.
///
/// A connection that cannot reach its feed rips up whatever is in the way and puts
/// those connections back to be done again. Without that, routing is
/// first-come-first-served: an early net takes the space and a later one - often the
/// one that had far fewer options to begin with - has nowhere to go.
pub fn route_all(
    g: &mut Grid,
    r: &mut Router,
    work: &Vec<Conn>,
    spines: &Vec<Vec<Pos>>,
    bounds: (Pos, Pos),
    Ghost(n): Ghost<Nets>,
    Ghost(w): Ghost<Works>,
) -> (res: Result<i32, String>)
    requires
        running(w, *old(r), *old(g)),
        n.work == work@,
        n.spine == known_spines(spines@),
        n.bounds == bounds,
        n.tuning == old(r).tuning,
        n.max_expansions == old(r).max_expansions,
        nets_ok(n),
        spines_within(spines@, 0x0980_0000),
    ensures
        ({
            let q = settled(n, all_waiting(w, n.work.len()));
            match res {
                Ok(band) => running(q.works, *final(r), *final(g)) && band == q.band && 0 <= band < 6,
                Err(m) => q.works.stop == Some(m@),
            }
        }),
        final(r).max_expansions == old(r).max_expansions,
        final(r).tuning == old(r).tuning,
{
    let total: usize = work.len();
    let mut queue: Vec<usize> = Vec::new();
    let mut tries: Vec<u32> = Vec::new();
    for i in 0..total
        invariant
            queue@ == Seq::new(i as nat, |k: int| k as usize),
            tries@ == Seq::new(i as nat, |k: int| 0u32),
    {
        queue.push(i);
        tries.push(0);
        assert(queue@ =~= Seq::new((i + 1) as nat, |k: int| k as usize));
        assert(tries@ =~= Seq::new((i + 1) as nat, |k: int| 0u32));
    }
    let mut done: Vec<usize> = Vec::new();
    let mut head: usize = 0;
    let mut band: i32 = 0;
    let ghost q0 = all_waiting(w, n.work.len());
    let ghost mut k: nat = 0;
    assert(indices(queue@).skip(0) =~= q0.waiting);
    assert(indices(done@) =~= q0.done);
    assert(counts(tries@) =~= q0.tries);
    while head < queue.len()
        invariant
            n.work == work@,
            total == work@.len(),
            n.spine == known_spines(spines@),
            n.bounds == bounds,
            nets_ok(n),
            spines_within(spines@, 0x0980_0000),
            q0 == all_waiting(w, n.work.len()),
            queue_shown(n, turned(n, q0, k), *r, *g, queue@, head as int, done@, tries@, band),
            r.tuning == old(r).tuning,
            r.max_expansions == old(r).max_expansions,
        decreases slack(counts(tries@), tries@.len()), queue@.len() - head,
    {
        let ghost q = turned(n, q0, k);
        let i: usize = queue[head];
        let ghost next = turn(n, q);
        assert(q.waiting[0] == i);
        assert(!is_over(q));
        assert(turned(n, q0, (k + 1) as nat) == next);
        let c: Conn = work[i];
        let sources = &spines[spine_index(spines, c.src)];
        let ghost given = counts(tries@);
        proof {
            lemma_slack_low(given, given.len());
        }
        let outcome = take_turn(
            g,
            r,
            work,
            sources,
            c,
            i,
            bounds,
            &mut queue,
            done,
            head,
            &mut tries,
            band,
            Ghost(n),
            Ghost(q),
        );
        proof {
            k = (k + 1) as nat;
        }
        match outcome {
            Ok((d, b, arrived)) => {
                done = d;
                band = b;
                proof {
                    lemma_slack_low(counts(tries@), tries@.len());
                    assert(given.len() == tries@.len());
                }
                if arrived {
                    head = head + 1;
                }
            },
            Err(e) => {
                proof {
                    lemma_settled(n, q0, k);
                }
                return Err(e);
            },
        }
    }
    proof {
        lemma_settled(n, q0, k);
    }
    Ok(band)
}

/// The place of a net's spine.
fn spine_index(spines: &Vec<Vec<Pos>>, s: Sig) -> (i: usize)
    requires
        known_spines(spines@).contains_key(s),
    ensures
        i == s,
        i < spines@.len(),
        spines@[i as int]@ == known_spines(spines@)[s],
        spines@[i as int]@.len() > 0,
{
    s as usize
}

/// Try the connection at the front of the queue.
fn take_turn(
    g: &mut Grid,
    r: &mut Router,
    work: &Vec<Conn>,
    sources: &Vec<Pos>,
    c: Conn,
    i: usize,
    bounds: (Pos, Pos),
    queue: &mut Vec<usize>,
    done: Vec<usize>,
    head: usize,
    tries: &mut Vec<u32>,
    band: i32,
    Ghost(n): Ghost<Nets>,
    Ghost(q): Ghost<Queue>,
) -> (res: Result<(Vec<usize>, i32, bool), String>)
    requires
        queue_shown(n, q, *old(r), *old(g), old(queue)@, head as int, done@, old(tries)@, band),
        n.work == work@,
        n.bounds == bounds,
        nets_ok(n),
        head < old(queue)@.len(),
        old(queue)@[head as int] == i,
        n.work[i as int] == c,
        n.spine[c.src] == sources@,
        sources_ok(sources@),
        within(sources@[0], 0x0980_0000),
    ensures
        match res {
            Ok((d, b, arrived)) => queue_shown(
                n,
                turn(n, q),
                *final(r),
                *final(g),
                final(queue)@,
                if arrived {
                    head + 1
                } else {
                    head as int
                },
                d@,
                final(tries)@,
                b,
            ) && (if arrived {
                counts(final(tries)@) == counts(old(tries)@) && final(queue)@ == old(queue)@
            } else {
                slack(counts(final(tries)@), final(tries)@.len()) < slack(counts(old(tries)@), old(tries)@.len())
            }),
            Err(m) => turn(n, q).works.stop == Some(m@),
        },
        final(r).max_expansions == old(r).max_expansions,
        final(r).tuning == old(r).tuning,
{
    assert(i < work@.len());
    assert(conn_ok(n.spine, n.work[i as int]));
    assert(q.waiting[0] == i);
    let hops: i32 = count_conn_hops(sources[0], c.feed);
    let ghost l = net_line(n, c.src);
    assert(l == line_of(*r, c.src, bounds, Material::Wire));
    let next_band: i32 = if hops > 1 {
        (band + 1) % RELAY_BANDS
    } else {
        band
    };
    let ghost t = conn_tried(l, q.works, sources@, c, band as int);
    let ghost next = Queue { band: next_band as int, ..q };
    match try_conn(g, r, sources, c, bounds, band, hops, Ghost(q.works))? {
        None => {
            let mut d = done;
            d.push(i);
            proof {
                assert(indices(d@) =~= indices(done@).push(i as int));
                assert(indices(queue@).skip(head + 1) =~= indices(queue@).skip(head as int).skip(1));
            }
            Ok((d, next_band, true))
        },
        Some((e, last)) => {
            let now: u32 = tries[i] + 1;
            if now > RIPS_MAX {
                return Err(given_up(e, last, true, done.len(), work.len()));
            }
            let victims = find_victims(
                r,
                c.feed,
                sources[0],
                c.src,
                if last {
                    3
                } else {
                    4
                },
            );
            if victims.len() == 0 {
                return Err(given_up(e, last, false, done.len(), work.len()));
            }
            let ghost had = tries@;
            tries.set(i, now);
            proof {
                assert(counts(tries@) =~= counts(had).update(i as int, now as int));
                lemma_slack(counts(had), i as int, now as int, had.len());
            }
            let ghost from = Queue { works: t.works, tries: q.tries.update(i as int, now as int), ..next };
            let kept = clear_for(
                g,
                r,
                work,
                &victims,
                queue,
                done,
                head,
                tries,
                next_band,
                Ghost(n),
                Ghost(from),
            );
            Ok((kept, next_band, false))
        },
    }
}

} // verus!
