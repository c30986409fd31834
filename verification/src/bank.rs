//! The register bank: flip-flops in a near-square, and the levers that control them.
use crate::deep::{lemma_built_spans, lemma_puts_join, puts_within, spans, within};
use crate::floorplan::{all_within, Floor, Plan, too_large, GATE_Z, LEVEL_H};
use crate::flop::{
    d_ports, dff_built, dff_ports, dff_slave, dff_with, room_for, tuning_ok, DffPorts,
};
use crate::netlist::{Gate, Netlist, Sig};
use crate::route::{usual_tuning, Tuning};
use crate::steps::{built, lemma_built_join, put, refusal, Step};
use crate::tech::{dust, lever_steps, moved, stamp_lever};
use crate::text::{decimal, push_decimal};
use crate::world::{Block, Grid, Material, Pos};
use vstd::prelude::*;
use vstd::string::*;

verus! {

/// Pitch of the register bank.
///
/// This clears a flip-flop's extent plus a margin, and the margin is not optional:
/// the D latch wires itself with the maze router, so with a neighbour inside its
/// bounds the router will spill into it.
pub const FLOP_PITCH_X: i32 = 78;

pub const FLOP_PITCH_Z: i32 = 152;

/// A bank of flip-flops, tiled so the placer can hand out one per netlist
/// register.
///
/// Tiled in both X and Z rather than a single row: a roughly square bank keeps the
/// clock and reset spines short, which matters because both fan out to every
/// register.
pub struct RegisterBank {
    pub flops: Vec<DffPorts>,
}

/// The least side, from `c` on, of a square with room for `n`.
pub open spec fn side_from(n: nat, c: nat) -> nat
    decreases n - c,
{
    if c * c >= n || c >= n {
        c
    } else {
        side_from(n, c + 1)
    }
}

/// The columns of a bank of `n`: the square root, rounded up, and at least one.
pub open spec fn columns(n: nat) -> nat {
    side_from(n, 1)
}

/// A side is the least whose square is large enough.
pub proof fn lemma_columns(n: nat)
    ensures
        columns(n) >= 1,
        columns(n) * columns(n) >= n,
        columns(n) > 1 ==> (columns(n) - 1) * (columns(n) - 1) < n,
        n >= 1 ==> columns(n) <= n,
{
    lemma_side(n, 1);
}

proof fn lemma_side(n: nat, c: nat)
    requires
        c >= 1,
        c > 1 ==> (c - 1) * (c - 1) < n,
        n >= 1 ==> c <= n,
    ensures
        side_from(n, c) >= c,
        side_from(n, c) * side_from(n, c) >= n,
        side_from(n, c) > 1 ==> (side_from(n, c) - 1) * (side_from(n, c) - 1) < n,
        n >= 1 ==> side_from(n, c) <= n,
    decreases n - c,
{
    if c * c >= n || c >= n {
        assert(c * c >= n) by (nonlinear_arith)
            requires
                c * c >= n || c >= n,
                c >= 1,
        ;
    } else {
        lemma_side(n, c + 1);
    }
}

fn side(n: usize) -> (c: usize)
    requires
        n <= u32::MAX,
    ensures
        c == columns(n as nat),
        1 <= c <= u32::MAX,
{
    let mut c: usize = 1;
    while c < n && (c as u64) * (c as u64) < n as u64
        invariant
            1 <= c <= u32::MAX,
            n <= u32::MAX,
            columns(n as nat) == side_from(n as nat, c as nat),
            c * c <= 0xffff_ffff * 0xffff_ffff,
        decreases n - c,
    {
        c = c + 1;
        assert(c * c <= 0xffff_ffff * 0xffff_ffff) by (nonlinear_arith)
            requires
                c <= 0xffff_ffff,
        ;
    }
    c
}

/// The column of the `i`th flip-flop of a bank of `n`.
pub open spec fn flop_column(n: nat, i: int) -> int {
    (i % (columns(n) as int)) * FLOP_PITCH_X
}

/// The row of the `i`th flip-flop of a bank of `n`.
pub open spec fn flop_row(n: nat, i: int) -> int {
    (i / (columns(n) as int)) * FLOP_PITCH_Z
}

/// Where the `i`th flip-flop of a bank of `n` stands.
pub open spec fn flop_base(base: Pos, n: nat, i: int) -> Pos {
    moved(base, flop_column(n, i), 0, flop_row(n, i))
}

/// A bank so far: its cells, where the latches of its flip-flops stand, and what
/// stopped it.
pub struct Bank {
    pub cells: Map<Pos, Block>,
    pub flops: Seq<(Pos, Pos)>,
    pub stop: Option<Seq<char>>,
}

pub open spec fn register_text(i: nat, e: Seq<char>) -> Seq<char> {
    "register "@ + decimal(i) + ": "@ + e
}

/// A flip-flop can stand at column `x` and row `z` of a grid without leaving `edge`.
pub open spec fn flop_fits(edge: int, cells: Map<Pos, Block>, x: int, y: int, z: int) -> bool {
    &&& spans(cells, edge)
    &&& -(edge - FLOP_REACH) <= x <= edge - FLOP_REACH
    &&& -(edge - FLOP_REACH) <= y <= edge - FLOP_REACH
    &&& -(edge - FLOP_REACH) <= z <= edge - FLOP_REACH
}

/// The first `k` flip-flops of a bank of `n`, which keeps to `edge`.
pub open spec fn bank_built(
    t: Tuning,
    edge: int,
    cells: Map<Pos, Block>,
    base: Pos,
    n: nat,
    k: nat,
) -> Bank
    decreases k,
{
    if k == 0 {
        Bank { cells, flops: Seq::empty(), stop: None }
    } else {
        let b = bank_built(t, edge, cells, base, n, (k - 1) as nat);
        if b.stop is Some {
            b
        } else if !flop_fits(
            edge,
            b.cells,
            base.0 + flop_column(n, k - 1),
            base.1 as int,
            base.2 + flop_row(n, k - 1),
        ) {
            Bank { stop: Some(register_text((k - 1) as nat, too_large())), ..b }
        } else {
            let at = flop_base(base, n, k - 1);
            let f = dff_built(t, b.cells, at);
            match f.1 {
                Some(e) => Bank { cells: f.0, stop: Some(register_text((k - 1) as nat, e)), ..b },
                None => Bank {
                    cells: f.0,
                    flops: b.flops.push((at, dff_slave(t, b.cells, at))),
                    stop: None,
                },
            }
        }
    }
}

/// The ports of the flip-flops are where their latches stand.
pub open spec fn bank_ports(flops: Seq<DffPorts>, at: Seq<(Pos, Pos)>) -> bool {
    &&& flops.len() == at.len()
    &&& forall|i: int| 0 <= i < at.len() ==> dff_ports(#[trigger] flops[i], at[i].0, at[i].1)
}

fn register_message(i: u64, e: String) -> (s: String)
    ensures
        s@ == register_text(i as nat, e@),
{
    let mut s = String::from_str("register ");
    push_decimal(&mut s, i);
    s.append(": ");
    s.append(e.as_str());
    s
}

/// How far a flip-flop reaches from where it stands, or from what is furthest out when it
/// is begun.
pub const FLOP_REACH: i32 = 256;

/// A bank keeps to what macros have room in.
pub const BANK_EDGE: i32 = 0x0fff_ff00;

/// A bank on a floor leaves room for the gates, and for the wires around them.
pub const FLOOR_EDGE: i32 = 0x0860_0000;

/// Stamp `n` flip-flops in a bank based at `base`. Each stands behind all that was placed
/// before it, as far out as there is room.
pub fn place_register_bank(g: &mut Grid, base: Pos, n: usize) -> (r: Result<RegisterBank, String>)
    requires
        n <= u32::MAX,
    ensures
        ({
            let b = bank_built(usual_tuning(), BANK_EDGE as int, old(g)@, base, n as nat, n as nat);
            &&& final(g)@ == b.cells
            &&& refusal(r) == b.stop
            &&& match r {
                Ok(bank) => bank_ports(bank.flops@, b.flops),
                Err(_) => true,
            }
        }),
{
    bank_with(g, base, n, Tuning::usual(), BANK_EDGE)
}

/// Where the next flip-flop goes, if there is room for it.
fn flop_place(g: &Grid, edge: i32, base: Pos, cols: usize, i: usize, Ghost(n): Ghost<nat>) -> (at: Option<Pos>)
    requires
        0x1000 <= edge <= BANK_EDGE,
        cols == columns(n),
        cols >= 1,
        i < n <= u32::MAX,
    ensures
        ({
            let fits = flop_fits(
                edge as int,
                g@,
                base.0 + flop_column(n, i as int),
                base.1 as int,
                base.2 + flop_row(n, i as int),
            );
            match at {
                Some(p) => fits && p == flop_base(base, n, i as int) && within(p, edge - FLOP_REACH),
                None => !fits,
            }
        }),
{
    proof {
        assert(0 <= i as int / cols as int <= i) by (nonlinear_arith)
            requires
                cols >= 1,
                i >= 0,
        ;
        assert(0 <= i as int % cols as int <= i) by (nonlinear_arith)
            requires
                cols >= 1,
                i >= 0,
        ;
    }
    let column: usize = i % cols;
    let row: usize = i / cols;
    assert(row <= 0xffff_ffff && column <= 0xffff_ffff);
    let x: i64 = base.0 as i64 + column as i64 * FLOP_PITCH_X as i64;
    let z: i64 = base.2 as i64 + row as i64 * FLOP_PITCH_Z as i64;
    let far: i64 = edge as i64 - FLOP_REACH as i64;
    if x < -far || x > far || (base.1 as i64) < -far || base.1 as i64 > far || z < -far || z > far {
        return None;
    }
    if !keeps_to(g, edge) {
        return None;
    }
    Some((x as i32, base.1, z as i32))
}

/// Is every block of the grid within `n`?
fn keeps_to(g: &Grid, n: i32) -> (r: bool)
    requires
        0 <= n,
    ensures
        r == spans(g@, n as int),
{
    match g.bounds() {
        None => true,
        Some((lo, hi)) => {
            let r = lo.0 >= -n && lo.1 >= -n && lo.2 >= -n && hi.0 <= n && hi.1 <= n && hi.2 <= n;
            proof {
                if !r {
                    let p0 = choose|p: Pos| #[trigger] g@.contains_key(p) && p.0 == lo.0;
                    let p1 = choose|p: Pos| #[trigger] g@.contains_key(p) && p.1 == lo.1;
                    let p2 = choose|p: Pos| #[trigger] g@.contains_key(p) && p.2 == lo.2;
                    let q0 = choose|p: Pos| #[trigger] g@.contains_key(p) && p.0 == hi.0;
                    let q1 = choose|p: Pos| #[trigger] g@.contains_key(p) && p.1 == hi.1;
                    let q2 = choose|p: Pos| #[trigger] g@.contains_key(p) && p.2 == hi.2;
                    assert(g@.contains_key(p0) && g@.contains_key(p1) && g@.contains_key(p2));
                    assert(g@.contains_key(q0) && g@.contains_key(q1) && g@.contains_key(q2));
                }
            }
            r
        },
    }
}

/// As [`place_register_bank`], with the router tuned otherwise and another edge.
pub(crate) fn bank_with(g: &mut Grid, base: Pos, n: usize, t: Tuning, edge: i32) -> (r: Result<RegisterBank, String>)
    requires
        0x1000 <= edge <= BANK_EDGE,
        n <= u32::MAX,
        tuning_ok(t),
    ensures
        ({
            let b = bank_built(t, edge as int, old(g)@, base, n as nat, n as nat);
            &&& final(g)@ == b.cells
            &&& refusal(r) == b.stop
            &&& spans(old(g)@, edge as int) ==> spans(final(g)@, edge + FLOP_REACH)
            &&& match r {
                Ok(bank) => bank_ports(bank.flops@, b.flops) && flops_within(b.flops, edge + FLOP_REACH),
                Err(_) => true,
            }
        }),
{
    // Near-square, so neither spine has to span the whole bank.
    let cols: usize = side(n);
    let ghost cells = g@;
    let mut flops: Vec<DffPorts> = Vec::new();
    for i in 0..n
        invariant
            0x1000 <= edge <= BANK_EDGE,
            n <= u32::MAX,
            1 <= cols,
            cols == columns(n as nat),
            tuning_ok(t),
            cells == old(g)@,
            ({
                let b = bank_built(t, edge as int, cells, base, n as nat, i as nat);
                &&& g@ == b.cells
                &&& b.stop is None
                &&& bank_ports(flops@, b.flops)
                &&& flops_within(b.flops, edge + FLOP_REACH)
            }),
            spans(cells, edge as int) ==> spans(g@, edge + FLOP_REACH),
    {
        let ghost b = bank_built(t, edge as int, cells, base, n as nat, i as nat);
        let at: Pos = match flop_place(g, edge, base, cols, i, Ghost(n as nat)) {
            Some(p) => p,
            None => {
                proof {
                    lemma_bank_stops(t, edge as int, cells, base, n as nat, (i + 1) as nat, n as nat);
                }
                return Err(register_message(i as u64, String::from_str("circuit is too large to place")));
            },
        };
        assert(room_for(at, edge as int));
        let ghost had = flops@;
        match dff_with(g, at, t, Ghost(edge as int)) {
            Ok(f) => {
                flops.push(f);
                proof {
                    let next = bank_built(t, edge as int, cells, base, n as nat, (i + 1) as nat);
                    assert forall|j: int| 0 <= j < next.flops.len() implies dff_ports(#[trigger] flops@[j], next.flops[j].0, next.flops[j].1) by {
                        if j < had.len() {
                            assert(flops@[j] == had[j]);
                        }
                    }
                    assert(within(dff_slave(t, b.cells, at), edge + FLOP_REACH));
                }
            },
            Err(e) => {
                proof {
                    lemma_bank_stops(t, edge as int, cells, base, n as nat, (i + 1) as nat, n as nat);
                }
                return Err(register_message(i as u64, e));
            },
        }
    }
    Ok(RegisterBank { flops })
}

/// The latches stand within `m`.
pub open spec fn flops_within(flops: Seq<(Pos, Pos)>, m: int) -> bool {
    forall|i: int|
        0 <= i < flops.len() ==> within((#[trigger] flops[i]).0, m) && within(flops[i].1, m)
}

proof fn lemma_bank_stops(t: Tuning, edge: int, cells: Map<Pos, Block>, base: Pos, n: nat, k: nat, m: nat)
    requires
        bank_built(t, edge, cells, base, n, k).stop is Some,
        k <= m,
    ensures
        bank_built(t, edge, cells, base, n, m) == bank_built(t, edge, cells, base, n, k),
    decreases m,
{
    if k < m {
        lemma_bank_stops(t, edge, cells, base, n, k, (m - 1) as nat);
    }
}

// --- the bank in a layout --------------------------------------------------------------

/// Where the dust beside the `i`th control lever is: the clock, the inverted clock and
/// the reset. It is on the side towards the register bank.
pub open spec fn ctrl_tap(i: int) -> Pos {
    ((-6 - 3 * i) as i32, LEVEL_H, (GATE_Z - 5) as i32)
}

/// The `i`th control lever and the dust beside it.
pub open spec fn ctrl_steps(i: int) -> Seq<Step> {
    let tap = ctrl_tap(i);
    lever_steps(moved(tap, 0, 0, 1), Material::Clock, false) + seq![
        Step::Put(moved(tap, 0, -1, 0), Block::Solid(Material::Clock)),
        Step::Put(tap, dust()),
    ]
}

pub open spec fn no_q_text(i: nat) -> Seq<char> {
    "flip-flop "@ + decimal(i) + " has no Q signal"@
}

/// The signal of the `i`th flip-flop's output.
pub open spec fn q_signal(gates: Seq<Gate>, i: int, s: Sig) -> bool {
    &&& s < gates.len()
    &&& gates[s as int] == Gate::DffQ(i as u32)
    &&& forall|k: int| 0 <= k < s ==> #[trigger] gates[k] != Gate::DffQ(i as u32)
}

pub open spec fn q_of(gates: Seq<Gate>, i: int) -> Sig {
    choose|s: Sig| q_signal(gates, i, s)
}

/// The outputs of the first `k` flip-flops are sources.
pub open spec fn q_sources(gates: Seq<Gate>, flops: Seq<(Pos, Pos)>, f: Floor, k: nat) -> Floor
    decreases k,
{
    if k == 0 {
        f
    } else {
        let before = q_sources(gates, flops, f, (k - 1) as nat);
        if before.stop is Some {
            before
        } else if gates.contains(Gate::DffQ((k - 1) as u32)) {
            let s = q_of(gates, k - 1);
            Floor { at: before.at.insert(s, d_ports(flops[k - 1].1).q), ..before }
        } else {
            Floor { stop: Some(no_q_text((k - 1) as nat)), ..before }
        }
    }
}

/// How far a flip-flop's output is from where it stands, measured in the open.
pub open spec fn q_offset(t: Tuning) -> int {
    d_ports(dff_slave(t, Map::empty(), (0, 0, 0))).q.2 as int
}

/// Where the bank of `n` stands: behind the input levers, as far back as its rows
/// reach, so that the last row's outputs land near the logic.
pub open spec fn bank_base(t: Tuning, n: nat) -> Pos {
    let cols = columns(n) as int;
    let rows = (n + cols - 1) / cols;
    (0, LEVEL_H, (GATE_Z - 12 - q_offset(t) - (rows - 1) * FLOP_PITCH_Z) as i32)
}

/// A floor and the flip-flops on it.
pub struct Banked {
    pub floor: Floor,
    pub flops: Seq<(Pos, Pos)>,
}

/// The bank stands on the floor, with its control levers.
pub open spec fn banked(t: Tuning, gates: Seq<Gate>, f: Floor, n: nat) -> Banked {
    let probe = dff_built(t, Map::empty(), (0, 0, 0));
    if n == 0 {
        Banked { floor: f, flops: Seq::empty() }
    } else if probe.1 is Some {
        Banked {
            floor: Floor { stop: Some("measuring flop: "@ + probe.1->0), ..f },
            flops: Seq::empty(),
        }
    } else {
        let b = bank_built(t, FLOOR_EDGE as int, f.cells, bank_base(t, n), n, n);
        if b.stop is Some {
            Banked { floor: Floor { cells: b.cells, stop: b.stop, ..f }, flops: b.flops }
        } else {
            let levers = built(b.cells, ctrl_steps(0) + ctrl_steps(1) + ctrl_steps(2));
            if levers.1 is Some {
                Banked { floor: Floor { cells: levers.0, stop: levers.1, ..f }, flops: b.flops }
            } else {
                Banked {
                    floor: q_sources(gates, b.flops, Floor { cells: levers.0, ..f }, n),
                    flops: b.flops,
                }
            }
        }
    }
}

fn no_q(i: u64) -> (s: String)
    ensures
        s@ == no_q_text(i as nat),
{
    let mut s = String::from_str("flip-flop ");
    push_decimal(&mut s, i);
    s.append(" has no Q signal");
    s
}

/// Place one control lever.
fn place_ctrl(g: &mut Grid, i: i32) -> (r: Result<(), String>)
    requires
        0 <= i <= 2,
    ensures
        built(old(g)@, ctrl_steps(i as int)) == (final(g)@, refusal(r)),
{
    let tap: Pos = (-6 - i * 3, LEVEL_H, GATE_Z - 5);
    let ghost a = lever_steps(moved(tap, 0, 0, 1), Material::Clock, false);
    let ghost b = seq![
        Step::Put(moved(tap, 0, -1, 0), Block::Solid(Material::Clock)),
        Step::Put(tap, dust()),
    ];
    proof {
        lemma_built_join(g@, a, b);
    }
    stamp_lever(g, (tap.0, tap.1, tap.2 + 1), Material::Clock, false)?;
    let ghost start = g@;
    assert(b.take(0) =~= Seq::empty());
    put(g, (tap.0, tap.1 - 1, tap.2), Block::Solid(Material::Clock), Ghost(start), Ghost(b), Ghost(0))?;
    put(g, tap, Block::Dust { power: 0 }, Ghost(start), Ghost(b), Ghost(1))?;
    assert(b.take(2) =~= b);
    Ok(())
}

proof fn lemma_ctrl_within()
    ensures
        puts_within(ctrl_steps(0) + ctrl_steps(1) + ctrl_steps(2), 0x0880_0000),
{
    assert forall|i: int| 0 <= i <= 2 implies puts_within(#[trigger] ctrl_steps(i), 0x0880_0000) by {
        let tap = ctrl_tap(i);
        let a = lever_steps(moved(tap, 0, 0, 1), Material::Clock, false);
        let b = seq![
            Step::Put(moved(tap, 0, -1, 0), Block::Solid(Material::Clock)),
            Step::Put(tap, dust()),
        ];
        assert(puts_within(a, 0x0880_0000));
        assert(puts_within(b, 0x0880_0000));
        lemma_puts_join(a, b, 0x0880_0000);
    }
    lemma_puts_join(ctrl_steps(0), ctrl_steps(1), 0x0880_0000);
    lemma_puts_join(ctrl_steps(0) + ctrl_steps(1), ctrl_steps(2), 0x0880_0000);
}

/// Where the bank stands.
fn bank_place(t: Tuning, n: usize) -> (r: Result<Pos, String>)
    requires
        1 <= n <= u32::MAX,
        tuning_ok(t),
    ensures
        ({
            let probe = dff_built(t, Map::empty(), (0, 0, 0));
            match r {
                Ok(p) => probe.1 is None && p == bank_base(t, n as nat) && within(p, 0x0400_0000),
                Err(m) => probe.1 is Some && m@ == "measuring flop: "@ + probe.1->0,
            }
        }),
{
    let cols: usize = side(n);
    proof {
        lemma_columns(n as nat);
        lemma_square(n as int, cols as int);
    }
    let rows: usize = (n - 1) / cols + 1;
    let mut probe = Grid::new();
    let f = match dff_with(&mut probe, (0, 0, 0), t, Ghost(1000)) {
        Ok(f) => f,
        Err(e) => {
            let mut m = String::from_str("measuring flop: ");
            m.append(e.as_str());
            return Err(m);
        },
    };
    let z: i32 = GATE_Z - 12 - f.q.2 - (rows as i32 - 1) * FLOP_PITCH_Z;
    Ok((0, LEVEL_H, z))
}

/// A bank has no more rows than columns, and few of either.
proof fn lemma_square(n: int, cols: int)
    requires
        1 <= n <= u32::MAX,
        1 <= cols,
        cols * cols >= n,
        cols > 1 ==> (cols - 1) * (cols - 1) < n,
    ensures
        cols <= 0x1_0000,
        (n + cols - 1) / cols == (n - 1) / cols + 1,
        0 <= (n - 1) / cols < cols,
{
    assert(cols <= 0x1_0000) by (nonlinear_arith)
        requires
            1 <= cols,
            n <= 0xffff_ffff,
            cols > 1 ==> (cols - 1) * (cols - 1) < n,
    ;
    assert((n + cols - 1) / cols == (n - 1) / cols + 1) by (nonlinear_arith)
        requires
            n >= 1,
            cols >= 1,
    ;
    assert(0 <= (n - 1) / cols < cols) by (nonlinear_arith)
        requires
            n >= 1,
            cols >= 1,
            cols * cols >= n,
    ;
}

proof fn lemma_q_signal(gates: Seq<Gate>, i: int, s: Sig)
    requires
        q_signal(gates, i, s),
    ensures
        gates.contains(Gate::DffQ(i as u32)),
        s == q_of(gates, i),
{
    let x = q_of(gates, i);
    assert(q_signal(gates, i, x));
    assert(gates[s as int] == Gate::DffQ(i as u32));
    assert(gates[x as int] == Gate::DffQ(i as u32));
}

proof fn lemma_q_stops(gates: Seq<Gate>, flops: Seq<(Pos, Pos)>, f: Floor, k: nat, m: nat)
    requires
        q_sources(gates, flops, f, k).stop is Some,
        k <= m,
    ensures
        q_sources(gates, flops, f, m) == q_sources(gates, flops, f, k),
    decreases m,
{
    if k < m {
        lemma_q_stops(gates, flops, f, k, (m - 1) as nat);
    }
}

/// Make the flip-flops' outputs sources.
fn note_outputs(net: &Netlist, plan: Plan, bank: &RegisterBank, Ghost(flops): Ghost<Seq<(Pos, Pos)>>, Ghost(f): Ghost<Floor>) -> (r: Result<Plan, String>)
    requires
        net.wf(),
        net.gates().len() <= 0xffff_fffd,
        plan.shows(f, net.gates().len()),
        bank_ports(bank.flops@, flops),
        flops_within(flops, 0x0880_0000),
        flops.len() <= u32::MAX,
    ensures
        ({
            let after = q_sources(net.gates(), flops, f, flops.len());
            match r {
                Ok(p) => p.shows(after, net.gates().len()),
                Err(m) => after.stop == Some(m@),
            }
        }),
{
    let mut p = plan;
    let ghost gates = net.gates();
    for i in 0..bank.flops.len()
        invariant
            net.wf(),
            gates == net.gates(),
            gates.len() <= 0xffff_fffd,
            bank_ports(bank.flops@, flops),
            flops_within(flops, 0x0880_0000),
            flops.len() <= u32::MAX,
            p.shows(q_sources(gates, flops, f, i as nat), gates.len()),
    {
        match net.dff_q(i as u32) {
            None => {
                proof {
                    lemma_q_stops(gates, flops, f, (i + 1) as nat, flops.len());
                }
                return Err(no_q(i as u64));
            },
            Some(s) => {
                assert(dff_ports(bank.flops@[i as int], flops[i as int].0, flops[i as int].1));
                assert(within(flops[i as int].1, 0x0880_0000));
                let q: Pos = bank.flops[i].q;
                proof {
                    lemma_q_signal(gates, i as int, s);
                    crate::floorplan::lemma_known_insert(p.at@, s, q);
                }
                p.at.set(s as usize, Some(q));
                proof {
                    let next = q_sources(gates, flops, f, (i + 1) as nat);
                    assert(all_within(next.at, 0x0900_0000));
                }
            },
        }
    }
    Ok(p)
}

/// Place the register bank, and the levers that control it, behind the input levers.
///
/// Flip-flop Q outputs are *sources* exactly like input levers: the combinational
/// cone reads them.
pub fn place_bank(net: &Netlist, plan: Plan, t: Tuning, Ghost(f): Ghost<Floor>) -> (r: Result<(Plan, Vec<DffPorts>), String>)
    requires
        net.wf(),
        net.gates().len() <= 0xffff_fffd,
        plan.shows(f, net.gates().len()),
        spans(f.cells, 0x0400_0000),
        tuning_ok(t),
    ensures
        ({
            let b = banked(t, net.gates(), f, net.dffs@.len());
            match r {
                Ok((p, flops)) => p.shows(b.floor, net.gates().len()) && bank_ports(flops@, b.flops)
                    && flops_within(b.flops, 0x0880_0000) && b.flops.len() == net.dffs@.len(),
                Err(m) => b.floor.stop == Some(m@),
            }
        }),
{
    let mut p = plan;
    let n: usize = net.dffs.len();
    if n == 0 {
        return Ok((p, Vec::new()));
    }
    let base = bank_place(t, n)?;
    let ghost b = bank_built(t, FLOOR_EDGE as int, f.cells, base, n as nat, n as nat);
    let bank = bank_with(&mut p.grid, base, n, t, FLOOR_EDGE)?;
    let ghost plan3 = ctrl_steps(0) + ctrl_steps(1) + ctrl_steps(2);
    proof {
        lemma_ctrl_within();
        lemma_built_spans(p.grid@, plan3, 0x0880_0000);
        lemma_built_join(p.grid@, ctrl_steps(0) + ctrl_steps(1), ctrl_steps(2));
        lemma_built_join(p.grid@, ctrl_steps(0), ctrl_steps(1));
    }
    // Control levers, well clear of the data levers.
    place_ctrl(&mut p.grid, 0)?;
    place_ctrl(&mut p.grid, 1)?;
    place_ctrl(&mut p.grid, 2)?;
    let ghost with_levers = Floor { cells: p.grid@, ..f };
    assert(p.shows(with_levers, net.gates().len()));
    proof {
        lemma_bank_count(t, FLOOR_EDGE as int, f.cells, base, n as nat, n as nat);
    }
    let p = note_outputs(net, p, &bank, Ghost(b.flops), Ghost(with_levers))?;
    Ok((p, bank.flops))
}

proof fn lemma_bank_count(t: Tuning, edge: int, cells: Map<Pos, Block>, base: Pos, n: nat, k: nat)
    requires
        bank_built(t, edge, cells, base, n, k).stop is None,
    ensures
        bank_built(t, edge, cells, base, n, k).flops.len() == k,
    decreases k,
{
    if k > 0 {
        lemma_bank_count(t, edge, cells, base, n, (k - 1) as nat);
    }
}

} // verus!
