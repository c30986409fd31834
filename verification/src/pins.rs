//! The reported levers and cells: each is beside the wire of the signal that it is there for.
use crate::bank::{
    bank_base, bank_built, banked, ctrl_steps, q_of, q_signal, q_sources, FLOOR_EDGE,
};
use crate::controls::outputs_owned;
use crate::floorplan::{
    deepest, in_range, leaves, levers_placed, row_of, rows_placed, swept, with_gate, Chart, Floor,
};
use crate::flop::{d_ports, dff_ports};
use crate::layout::{
    by_port, floor_of, levers_among, levers_listed, port_text, reset_lever, with_lever, Draft,
    Layout, Lever, PortLevers,
};
use crate::netlist::{Gate, Sig};
use crate::route::{NetId, Tuning};
use crate::steps::built;
use crate::tech::{moved, nor_out};
use crate::world::Pos;
use vstd::prelude::*;

verus! {

/// The input whose wire lies south of a lever, by port and bit.
pub open spec fn input_at(owner: Map<Pos, NetId>, gates: Seq<Gate>, lever: Pos) -> Option<(u32, u32)> {
    let p = moved(lever, 0, 0, 1);
    if owner.contains_key(p) && owner[p] < gates.len() {
        match gates[owner[p] as int] {
            Gate::Input { port, bit } => Some((port, bit)),
            _ => None,
        }
    } else {
        None
    }
}

/// The levers of one port: each is beside the wire of an input of that port, the lowest bit
/// first.
pub open spec fn port_wired(owner: Map<Pos, NetId>, gates: Seq<Gate>, levers: Seq<Pos>, port: u32) -> bool {
    &&& levers.len() > 0
    &&& forall|k: int|
        0 <= k < levers.len() ==> input_at(owner, gates, #[trigger] levers[k]) is Some && (input_at(
            owner,
            gates,
            levers[k],
        )->Some_0).0 == port
    &&& forall|j: int, k: int|
        0 <= j < k < levers.len() ==> (input_at(owner, gates, #[trigger] levers[j])->Some_0).1 <= (input_at(
            owner,
            gates,
            #[trigger] levers[k],
        )->Some_0).1
}

/// The levers are listed port by port, under the names of the ports.
pub open spec fn inputs_named(l: Layout, gates: Seq<Gate>, ports: Seq<u32>) -> bool {
    &&& ports.len() == l.input_levers@.len()
    &&& forall|i: int, j: int| 0 <= i < j < ports.len() ==> (#[trigger] ports[i]) < (#[trigger] ports[j])
    &&& forall|j: int|
        0 <= j < ports.len() ==> (#[trigger] l.input_levers@[j]).0@ == port_text(ports[j]) && port_wired(
            l.wire_owner@,
            gates,
            l.input_levers@[j].1@,
            ports[j],
        )
}

/// Each input lever is beside the wire of the input that it is listed for, the lever of the
/// reset beside the wire of the reset, and each gate and each flip-flop comes out on wire of
/// its own signal.
pub open spec fn pins_wired(l: Layout, gates: Seq<Gate>) -> bool {
    &&& exists|ports: Seq<u32>| #[trigger] inputs_named(l, gates, ports)
    &&& l.net_reset_lever matches Some(p) ==> {
        let s = moved(p, 0, 0, 1);
        l.wire_owner@.contains_key(s) && l.wire_owner@[s] < gates.len() && gates[l.wire_owner@[s] as int] is Reset
    }
    &&& forall|s: Sig| #[trigger]
        l.gate_cells@.contains_key(s) ==> l.wire_owner@.contains_key(l.gate_cells@[s].0)
            && l.wire_owner@[l.gate_cells@[s].0] == s
    &&& forall|i: int| 0 <= i < l.flop_ports@.len() ==> flop_out(l.wire_owner@, gates, (#[trigger] l.flop_ports@[i]).q, i)
}

/// Flip-flop `i` comes out on wire of the signal that it drives.
pub open spec fn flop_out(owner: Map<Pos, NetId>, gates: Seq<Gate>, p: Pos, i: int) -> bool {
    owner.contains_key(p) && owner[p] < gates.len() && gates[owner[p] as int] == Gate::DffQ(i as u32)
}

// --- the levers in order -------------------------------------------------------------------------

spec fn lever_before(a: Lever, b: Lever) -> bool {
    a.port < b.port || (a.port == b.port && a.bit <= b.bit)
}

spec fn in_order(levers: Seq<Lever>) -> bool {
    forall|i: int, j: int| 0 <= i < j < levers.len() ==> lever_before(#[trigger] levers[i], #[trigger] levers[j])
}

/// The lever of a signal.
spec fn lever_of(gates: Seq<Gate>, at: Map<Sig, Pos>, l: Lever, s: Sig) -> bool {
    &&& s < gates.len()
    &&& at.contains_key(s)
    &&& gates[s as int] == Gate::Input { port: l.port, bit: l.bit }
    &&& l.at == moved(at[s], 0, 0, -1)
}

spec fn is_lever(gates: Seq<Gate>, at: Map<Sig, Pos>, l: Lever) -> bool {
    exists|s: Sig| lever_of(gates, at, l, s)
}

proof fn lemma_with_lever_order(levers: Seq<Lever>, l: Lever)
    requires
        in_order(levers),
    ensures
        in_order(with_lever(levers, l)),
        forall|i: int|
            0 <= i < with_lever(levers, l).len() ==> (#[trigger] with_lever(levers, l)[i]) == l || levers.contains(
                with_lever(levers, l)[i],
            ),
    decreases levers.len(),
{
    let after = with_lever(levers, l);
    if levers.len() > 0 && (l.port < levers.last().port || (l.port == levers.last().port && l.bit < levers.last().bit)) {
        let rest = levers.drop_last();
        lemma_with_lever_order(rest, l);
        let w = with_lever(rest, l);
        assert(after == w.push(levers.last()));
        assert forall|i: int| 0 <= i < w.len() implies (w[i] == l || levers.contains(w[i])) && lever_before(
            #[trigger] w[i],
            levers.last(),
        ) by {
            if w[i] != l {
                let k = choose|k: int| 0 <= k < rest.len() && rest[k] == w[i];
                assert(levers[k] == w[i]);
                assert(lever_before(levers[k], levers[levers.len() - 1]));
            }
        }
        assert(levers[levers.len() - 1] == levers.last());
        assert forall|i: int| 0 <= i < after.len() implies (#[trigger] after[i]) == l || levers.contains(after[i]) by {
            if i < w.len() {
                assert(after[i] == w[i]);
            }
        }
    } else {
        assert(after == levers.push(l));
        assert forall|i: int| 0 <= i < levers.len() implies lever_before(#[trigger] levers[i], l) by {
            if i < levers.len() - 1 {
                assert(lever_before(levers[i], levers[levers.len() - 1]));
            }
        }
        assert forall|i: int| 0 <= i < after.len() implies (#[trigger] after[i]) == l || levers.contains(after[i]) by {
            if i < levers.len() {
                assert(after[i] == levers[i]);
            }
        }
    }
}

proof fn lemma_levers_order(gates: Seq<Gate>, at: Map<Sig, Pos>, n: nat)
    requires
        n <= gates.len(),
        gates.len() <= u32::MAX,
    ensures
        in_order(levers_among(gates, at, n)),
        forall|i: int|
            0 <= i < levers_among(gates, at, n).len() ==> is_lever(gates, at, #[trigger] levers_among(gates, at, n)[i]),
    decreases n,
{
    if n > 0 {
        lemma_levers_order(gates, at, (n - 1) as nat);
        let before = levers_among(gates, at, (n - 1) as nat);
        let s = (n - 1) as u32;
        match gates[n - 1] {
            Gate::Input { port, bit } => if at.contains_key(s) {
                let l = Lever { port, bit, at: moved(at[s], 0, 0, -1) };
                lemma_with_lever_order(before, l);
                assert(lever_of(gates, at, l, s));
                let after = with_lever(before, l);
                assert forall|i: int| 0 <= i < after.len() implies is_lever(gates, at, #[trigger] after[i]) by {
                    if after[i] != l {
                        let k = choose|k: int| 0 <= k < before.len() && before[k] == after[i];
                        assert(is_lever(gates, at, before[k]));
                    }
                }
            },
            _ => {},
        }
    }
}

// --- port by port ------------------------------------------------------------------------------------

/// Where group `j` begins among the levers.
spec fn begins(groups: Seq<PortLevers>, j: int) -> int
    decreases j,
{
    if j <= 0 {
        0
    } else {
        begins(groups, j - 1) + groups[j - 1].levers.len()
    }
}

proof fn lemma_begins(a: Seq<PortLevers>, b: Seq<PortLevers>, j: int)
    requires
        0 <= j <= a.len(),
        j <= b.len(),
        forall|i: int| 0 <= i < j ==> (#[trigger] a[i]) == b[i],
    ensures
        begins(a, j) == begins(b, j),
    decreases j,
{
    if j > 0 {
        assert(a[j - 1] == b[j - 1]);
        lemma_begins(a, b, j - 1);
    }
}

/// Group `j` is the levers from where it begins.
spec fn group_ok(levers: Seq<Lever>, n: int, groups: Seq<PortLevers>, j: int) -> bool {
    let g = groups[j];
    let b = begins(groups, j);
    &&& 0 <= b
    &&& g.levers.len() > 0
    &&& b + g.levers.len() <= n
    &&& forall|k: int|
        0 <= k < g.levers.len() ==> (#[trigger] g.levers[k]) == levers[b + k].at && levers[b + k].port == g.port
}

proof fn lemma_groups(levers: Seq<Lever>, n: nat)
    requires
        n <= levers.len(),
        in_order(levers),
    ensures
        ({
            let g = by_port(levers, n);
            &&& forall|j: int| 0 <= j < g.len() ==> #[trigger] group_ok(levers, n as int, g, j)
            &&& forall|i: int, j: int| 0 <= i < j < g.len() ==> (#[trigger] g[i]).port < (#[trigger] g[j]).port
            &&& n > 0 ==> g.len() > 0 && begins(g, g.len() - 1) + g.last().levers.len() == n && g.last().port
                == levers[n - 1].port
            &&& n == 0 ==> g.len() == 0
        }),
    decreases n,
{
    if n > 0 {
        lemma_groups(levers, (n - 1) as nat);
        let a = by_port(levers, (n - 1) as nat);
        let g = by_port(levers, n);
        let l = levers[n - 1];
        if n >= 2 {
            assert(lever_before(levers[n - 2], l));
        }
        let m = g.len() - 1;
        assert(forall|i: int| 0 <= i < m ==> (#[trigger] g[i]) == a[i]);
        assert forall|j: int| 0 <= j < m implies #[trigger] group_ok(levers, n as int, g, j) by {
            assert(group_ok(levers, n - 1, a, j));
            assert(g[j] == a[j]);
            lemma_begins(a, g, j);
        }
        lemma_begins(a, g, m);
        if n >= 2 && levers[n - 2].port == l.port {
            assert(group_ok(levers, n - 1, a, m));
            assert(a.last() == a[m]);
            assert(g[m].levers == a[m].levers.push(l.at));
            assert forall|k: int| 0 <= k < g[m].levers.len() implies (#[trigger] g[m].levers[k]) == levers[begins(g, m) + k].at
                && levers[begins(g, m) + k].port == g[m].port by {
                if k < a[m].levers.len() {
                    assert(g[m].levers[k] == a[m].levers[k]);
                }
            }
            assert forall|i: int| 0 <= i < m implies (#[trigger] g[i]).port < g[m].port by {
                assert(a[i].port < a[m].port);
            }
        } else {
            assert(g[m].levers == seq![l.at]);
            if n >= 2 {
                assert(begins(a, a.len() as int) == n - 1);
                assert(a.last() == a[a.len() - 1]);
                assert forall|i: int| 0 <= i < m implies (#[trigger] g[i]).port < g[m].port by {
                    assert(g[i] == a[i]);
                    if i < a.len() - 1 {
                        assert(a[i].port < a[a.len() - 1].port);
                    }
                }
            }
        }
        assert(group_ok(levers, n as int, g, m));
    }
}

// --- gates ---------------------------------------------------------------------------------------------

/// Gates come out where their cells do.
spec fn gates_out(f: Floor) -> bool {
    forall|s: Sig| #[trigger] f.base.contains_key(s) ==> f.at.contains_key(s) && f.at[s] == nor_out(f.base[s])
}

proof fn lemma_swept_out(c: Chart, start: Floor, l: nat, row: Seq<Sig>, n: nat)
    requires
        gates_out(start),
    ensures
        gates_out(swept(c, start, l, row, n).floor),
    decreases n,
{
    if n > 0 {
        lemma_swept_out(c, start, l, row, (n - 1) as nat);
    }
}

proof fn lemma_rows_out(c: Chart, start: Floor, l: nat)
    requires
        gates_out(start),
    ensures
        gates_out(rows_placed(c, start, l)),
    decreases l,
{
    if l > 0 {
        lemma_rows_out(c, start, (l - 1) as nat);
        let f = rows_placed(c, start, (l - 1) as nat);
        let row = row_of(c, f.at, l, c.order.len());
        lemma_swept_out(c, f, l, row, row.len());
    }
}

proof fn lemma_levers_bare(c: Chart, row: Seq<Sig>, n: nat)
    ensures
        levers_placed(c, row, n).base == Map::<Sig, Pos>::empty(),
    decreases n,
{
    if n > 0 {
        lemma_levers_bare(c, row, (n - 1) as nat);
    }
}

proof fn lemma_q_bare(gates: Seq<Gate>, flops: Seq<(Pos, Pos)>, f: Floor, k: nat)
    ensures
        q_sources(gates, flops, f, k).base == f.base,
    decreases k,
{
    if k > 0 {
        lemma_q_bare(gates, flops, f, (k - 1) as nat);
    }
}

proof fn lemma_floor_out(t: Tuning, d: Draft)
    ensures
        gates_out(floor_of(t, d).floor),
{
    reveal(floor_of);
    let c = d.chart;
    let row = leaves(c, c.gates.len());
    let levers = levers_placed(c, row, row.len());
    lemma_levers_bare(c, row, row.len());
    let b = banked(t, c.gates, levers, d.ds.len());
    let n = d.ds.len();
    if n > 0 {
        let base = bank_base(t, n);
        let made = bank_built(t, FLOOR_EDGE as int, levers.cells, base, n, n);
        let on = built(made.cells, ctrl_steps(0) + ctrl_steps(1) + ctrl_steps(2));
        lemma_q_bare(c.gates, made.flops, Floor { cells: on.0, ..levers }, n);
    }
    lemma_rows_out(c, b.floor, deepest(c, c.order.len()));
}

// --- flip-flops ------------------------------------------------------------------------------------------

proof fn lemma_q_first(gates: Seq<Gate>, i: int, n: int)
    requires
        0 <= n < gates.len() <= u32::MAX,
        gates[n] == Gate::DffQ(i as u32),
    ensures
        q_signal(gates, i, q_of(gates, i)),
    decreases n,
{
    if exists|k: int| 0 <= k < n && gates[k] == Gate::DffQ(i as u32) {
        let k = choose|k: int| 0 <= k < n && gates[k] == Gate::DffQ(i as u32);
        lemma_q_first(gates, i, k);
    } else {
        assert(q_signal(gates, i, n as u32));
    }
}

/// Flip-flop `i` comes out where its signal does.
spec fn q_out(gates: Seq<Gate>, flops: Seq<(Pos, Pos)>, f: Floor, i: int) -> bool {
    let s = q_of(gates, i);
    &&& q_signal(gates, i, s)
    &&& f.at.contains_key(s)
    &&& f.at[s] == d_ports(flops[i].1).q
}

proof fn lemma_q_out(gates: Seq<Gate>, flops: Seq<(Pos, Pos)>, f: Floor, k: nat)
    requires
        gates.len() <= u32::MAX,
        k <= u32::MAX,
        q_sources(gates, flops, f, k).stop is None,
    ensures
        forall|i: int| 0 <= i < k ==> #[trigger] q_out(gates, flops, q_sources(gates, flops, f, k), i),
    decreases k,
{
    if k > 0 {
        let before = q_sources(gates, flops, f, (k - 1) as nat);
        lemma_q_out(gates, flops, f, (k - 1) as nat);
        let n = choose|n: int| 0 <= n < gates.len() && gates[n] == Gate::DffQ((k - 1) as u32);
        assert(gates.contains(Gate::DffQ((k - 1) as u32)));
        lemma_q_first(gates, k - 1, n);
        let after = q_sources(gates, flops, f, k);
        assert forall|i: int| 0 <= i < k implies #[trigger] q_out(gates, flops, after, i) by {
            if i < k - 1 {
                assert(q_out(gates, flops, before, i));
                assert(gates[q_of(gates, i) as int] == Gate::DffQ(i as u32));
                assert(i as u32 != (k - 1) as u32);
            }
        }
    }
}

proof fn lemma_with_gate_all(c: Chart, at: Map<Sig, Pos>, row: Seq<Sig>, g: Sig)
    requires
        forall|i: int| 0 <= i < row.len() ==> c.gates[#[trigger] row[i] as int] is Nor,
        c.gates[g as int] is Nor,
    ensures
        forall|i: int|
            0 <= i < with_gate(c, at, row, g).len() ==> c.gates[#[trigger] with_gate(c, at, row, g)[i] as int] is Nor,
    decreases row.len(),
{
    if row.len() > 0 {
        let rest = row.drop_last();
        assert forall|i: int| 0 <= i < rest.len() implies c.gates[#[trigger] rest[i] as int] is Nor by {
            assert(rest[i] == row[i]);
        }
        assert(row[row.len() - 1] == row.last());
        lemma_with_gate_all(c, at, rest, g);
    }
}

proof fn lemma_row_all(c: Chart, at: Map<Sig, Pos>, l: nat, n: nat)
    ensures
        forall|i: int|
            0 <= i < row_of(c, at, l, n).len() ==> c.gates[#[trigger] row_of(c, at, l, n)[i] as int] is Nor,
    decreases n,
{
    if n > 0 {
        lemma_row_all(c, at, l, (n - 1) as nat);
        let g = c.order[n - 1];
        if c.gates[g as int] is Nor {
            lemma_with_gate_all(c, at, row_of(c, at, l, (n - 1) as nat), g);
        }
    }
}

proof fn lemma_swept_keeps(c: Chart, start: Floor, l: nat, row: Seq<Sig>, n: nat, s: Sig)
    requires
        forall|i: int| 0 <= i < row.len() ==> (#[trigger] row[i]) != s,
        n <= row.len(),
        start.at.contains_key(s),
    ensures
        swept(c, start, l, row, n).floor.at.contains_key(s),
        swept(c, start, l, row, n).floor.at[s] == start.at[s],
    decreases n,
{
    if n > 0 {
        lemma_swept_keeps(c, start, l, row, (n - 1) as nat, s);
        assert(row[n - 1] != s);
    }
}

proof fn lemma_rows_keep(c: Chart, start: Floor, l: nat, s: Sig)
    requires
        !(c.gates[s as int] is Nor),
        start.at.contains_key(s),
    ensures
        rows_placed(c, start, l).at.contains_key(s),
        rows_placed(c, start, l).at[s] == start.at[s],
    decreases l,
{
    if l > 0 {
        lemma_rows_keep(c, start, (l - 1) as nat, s);
        let f = rows_placed(c, start, (l - 1) as nat);
        let row = row_of(c, f.at, l, c.order.len());
        lemma_row_all(c, f.at, l, c.order.len());
        lemma_swept_keeps(c, f, l, row, row.len(), s);
    }
}

proof fn lemma_rows_stopped(c: Chart, start: Floor, l: nat)
    requires
        start.stop is Some,
    ensures
        rows_placed(c, start, l).stop is Some,
    decreases l,
{
    if l > 0 {
        lemma_rows_stopped(c, start, (l - 1) as nat);
    }
}

proof fn lemma_flops_out(t: Tuning, d: Draft)
    requires
        d.chart.gates.len() <= u32::MAX,
        d.ds.len() <= u32::MAX,
        floor_of(t, d).floor.stop is None,
        floor_of(t, d).flops.len() <= d.ds.len(),
    ensures
        forall|i: int|
            0 <= i < floor_of(t, d).flops.len() ==> #[trigger] q_out(
                d.chart.gates,
                floor_of(t, d).flops,
                floor_of(t, d).floor,
                i,
            ),
{
    reveal(floor_of);
    let c = d.chart;
    let row = leaves(c, c.gates.len());
    let levers = levers_placed(c, row, row.len());
    let n = d.ds.len();
    let b = banked(t, c.gates, levers, n);
    let l = deepest(c, c.order.len());
    if b.floor.stop is Some {
        lemma_rows_stopped(c, b.floor, l);
    }
    if n > 0 {
        let made = bank_built(t, FLOOR_EDGE as int, levers.cells, bank_base(t, n), n, n);
        let on = built(made.cells, ctrl_steps(0) + ctrl_steps(1) + ctrl_steps(2));
        lemma_q_out(c.gates, made.flops, Floor { cells: on.0, ..levers }, n);
    }
    assert forall|i: int| 0 <= i < b.flops.len() implies #[trigger] q_out(
        c.gates,
        b.flops,
        rows_placed(c, b.floor, l),
        i,
    ) by {
        assert(q_out(c.gates, b.flops, b.floor, i));
        lemma_rows_keep(c, b.floor, l, q_of(c.gates, i));
    }
}

// --- the law -----------------------------------------------------------------------------------------------

proof fn lemma_reset(gates: Seq<Gate>, at: Map<Sig, Pos>, n: nat)
    requires
        n <= gates.len() <= u32::MAX,
    ensures
        reset_lever(gates, at, n) matches Some(p) ==> exists|s: Sig|
            s < gates.len() && #[trigger] at.contains_key(s) && gates[s as int] is Reset && p == moved(at[s], 0, 0, -1),
    decreases n,
{
    if n > 0 {
        lemma_reset(gates, at, (n - 1) as nat);
    }
}

/// South of a lever is what it was put north of.
proof fn lemma_south(p: Pos)
    requires
        p.2 > i32::MIN,
    ensures
        moved(moved(p, 0, 0, -1), 0, 0, 1) == p,
{
}

/// What a layout reports is beside what it is reported for, where signals come out on wire of
/// their own.
pub proof fn lemma_pins_wired(l: Layout, t: Tuning, d: Draft)
    requires
        l.shows(t, d),
        d.chart.gates.len() <= u32::MAX,
        d.ds.len() <= u32::MAX,
        floor_of(t, d).floor.stop is None,
        floor_of(t, d).flops.len() <= d.ds.len(),
        in_range(floor_of(t, d).floor),
        outputs_owned(l.wire_owner@, floor_of(t, d).floor.at, d.chart.gates.len()),
        forall|s: Sig| #[trigger] floor_of(t, d).floor.at.contains_key(s) ==> s < d.chart.gates.len(),
    ensures
        pins_wired(l, d.chart.gates),
{
    let gates = d.chart.gates;
    let f = floor_of(t, d).floor;
    let owner = l.wire_owner@;
    let levers = levers_among(gates, f.at, gates.len());
    let groups = by_port(levers, levers.len());
    lemma_levers_order(gates, f.at, gates.len());
    lemma_groups(levers, levers.len());
    lemma_floor_out(t, d);
    let ports = Seq::new(groups.len(), |j: int| groups[j].port);
    assert(levers_listed(l.input_levers@, groups));
    assert forall|i: int| 0 <= i < levers.len() implies input_at(owner, gates, (#[trigger] levers[i]).at) == Some(
        (levers[i].port, levers[i].bit),
    ) by {
        let s = choose|s: Sig| lever_of(gates, f.at, levers[i], s);
        assert(is_lever(gates, f.at, levers[i]));
        assert(f.at.contains_key(s));
        lemma_south(f.at[s]);
    }
    assert forall|j: int| 0 <= j < ports.len() implies (#[trigger] l.input_levers@[j]).0@ == port_text(ports[j])
        && port_wired(owner, gates, l.input_levers@[j].1@, ports[j]) by {
        let g = groups[j];
        let b = begins(groups, j);
        assert(group_ok(levers, levers.len() as int, groups, j));
        assert forall|k: int| 0 <= k < g.levers.len() implies input_at(owner, gates, #[trigger] g.levers[k]) == Some(
            (g.port, levers[b + k].bit),
        ) by {
            assert(g.levers[k] == levers[b + k].at);
        }
        assert forall|i: int, k: int| 0 <= i < k < g.levers.len() implies (input_at(
            owner,
            gates,
            #[trigger] g.levers[i],
        )->Some_0).1 <= (input_at(owner, gates, #[trigger] g.levers[k])->Some_0).1 by {
            assert(lever_before(levers[b + i], levers[b + k]));
            assert(levers[b + i].port == g.port && levers[b + k].port == g.port) by {
                assert(g.levers[i] == levers[b + i].at);
                assert(g.levers[k] == levers[b + k].at);
            }
        }
    }
    assert(inputs_named(l, gates, ports));
    lemma_reset(gates, f.at, gates.len());
    if l.net_reset_lever is Some {
        let p = l.net_reset_lever->Some_0;
        let s = choose|s: Sig|
            s < gates.len() && #[trigger] f.at.contains_key(s) && gates[s as int] is Reset && p == moved(
                f.at[s],
                0,
                0,
                -1,
            );
        assert(f.at.contains_key(s));
        lemma_south(f.at[s]);
    }
    assert forall|s: Sig| #[trigger] l.gate_cells@.contains_key(s) implies owner.contains_key(l.gate_cells@[s].0)
        && owner[l.gate_cells@[s].0] == s by {
        assert(f.base.contains_key(s));
        assert(f.at.contains_key(s));
    }
    lemma_flops_out(t, d);
    let flops = floor_of(t, d).flops;
    assert forall|i: int| 0 <= i < l.flop_ports@.len() implies flop_out(owner, gates, (#[trigger] l.flop_ports@[i]).q, i) by {
        assert(q_out(gates, flops, f, i));
        assert(dff_ports(l.flop_ports@[i], flops[i].0, flops[i].1));
        assert(f.at.contains_key(q_of(gates, i)));
    }
}

} // verus!
