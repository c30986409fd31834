//! Redstone power semantics and a tick-accurate simulator.
//!
//! This module is the single source of truth for "what does Minecraft do".
//! Every rule the compiler relies on is written down here explicitly so it can
//! be audited in one place rather than being smeared across the layout code.
//!
//! # The rules
//!
//! Power comes in two flavours:
//!
//! * **Strong power.** A block is strongly powered by a lit torch directly
//!   beneath it, by a powered repeater facing into it, or by a lever attached to
//!   it. A strongly powered block energises *all* adjacent dust to level 15.
//! * **Weak power.** A block is weakly powered by dust sitting on top of it, or
//!   by dust pointing into it. A weakly powered block does **not** energise
//!   adjacent dust, but it *does* extinguish a torch attached to it and it does
//!   drive a repeater reading from it.
//!
//! # Timing model
//!
//! The unit is the redstone tick (2 game ticks). A torch inverts with 1 tick of
//! delay; a repeater delays by its `delay` setting. Dust propagates
//! combinationally within a tick.
//!
//! A torch driven past eight toggles in 60 game ticks burns out: it goes out and
//! stays out until it is left alone again. That is how real redstone damps a
//! circulating pulse.
//!
//! Dust connects across a Y step only when the step is actually open: nothing
//! solid above the lower dust.
//!
//! Sub-tick update ordering, quasi-connectivity and repeater locking are not
//! modelled.
use crate::posmap::{by_axes, sort_by_axes, PosMap};
use crate::world::{
    above, all_interior, below, beside, block_at, down, interior, is_dust, offset, opaque_block,
    opposite_of, shape_at, side_of, up, Block, Conn, Dir, DustShape, Face, Grid, Pos,
};
use vstd::prelude::*;

verus! {

pub const MAX_POWER: u8 = 15;

/// A torch burns out after this many toggles inside [`BURNOUT_WINDOW`]. It
/// recovers once the window passes quietly, as it does in game when a block
/// update re-evaluates it - so burnout damps a pulse rather than permanently
/// killing the torch.
pub const BURNOUT_TOGGLES: usize = 8;

/// The window burnout is measured over, in redstone ticks (60 game ticks).
pub const BURNOUT_WINDOW: u64 = 30;

// --- the rules ---------------------------------------------------------------

/// The state of every active component, as a mathematical value.
pub struct Circuit {
    pub torch_lit: Map<Pos, bool>,
    pub repeater_powered: Map<Pos, bool>,
    pub lever_on: Map<Pos, bool>,
    /// Scheduled transitions: position -> (tick at which it fires, new value).
    pub pending: Map<Pos, (u64, bool)>,
    /// When each torch toggled, as far as it was recent at its last toggle.
    pub toggles: Map<Pos, Seq<u64>>,
    pub tick: u64,
}

pub open spec fn is_torch(b: Block) -> bool {
    b is WallTorch || b is Torch
}

/// A component that is on.
pub open spec fn on(m: Map<Pos, bool>, p: Pos) -> bool {
    m.contains_key(p) && m[p]
}

/// The component at `q` puts out power.
pub open spec fn active(cells: Map<Pos, Block>, c: Circuit, q: Pos) -> bool {
    match block_at(cells, q) {
        Block::WallTorch { .. } => on(c.torch_lit, q),
        Block::Torch { .. } => on(c.torch_lit, q),
        Block::Repeater { .. } => on(c.repeater_powered, q),
        Block::Lever { .. } => on(c.lever_on, q),
        _ => false,
    }
}

/// The position that an active component `b` at `q` powers strongly: above a
/// torch, in front of a repeater, behind a lever.
pub open spec fn target_of(b: Block, q: Pos) -> Pos {
    match b {
        Block::Repeater { facing, .. } => beside(q, opposite_of(facing)),
        Block::Lever { face, facing, .. } => match face {
            Face::Floor => below(q),
            Face::Ceiling => above(q),
            Face::Wall => beside(q, opposite_of(facing)),
        },
        _ => above(q),
    }
}

/// The positions where an active component `b` at `q` drives dust.
pub open spec fn ends_of(b: Block, q: Pos) -> Seq<Pos> {
    match b {
        Block::Repeater { facing, .. } => seq![beside(q, opposite_of(facing))],
        Block::Lever { .. } => around(q),
        _ => seq![
            beside(q, Dir::North),
            beside(q, Dir::South),
            beside(q, Dir::West),
            beside(q, Dir::East),
            above(q),
        ],
    }
}

/// The six positions that touch `p`.
pub open spec fn around(p: Pos) -> Seq<Pos> {
    seq![
        beside(p, Dir::North),
        beside(p, Dir::South),
        beside(p, Dir::West),
        beside(p, Dir::East),
        above(p),
        below(p),
    ]
}

/// The block at `p` is strongly powered.
pub open spec fn strong(cells: Map<Pos, Block>, c: Circuit, p: Pos) -> bool {
    &&& block_at(cells, p) is Solid
    &&& exists|q: Pos| #[trigger] active(cells, c, q) && target_of(block_at(cells, q), q) == p
}

/// The dust at `p` is driven directly, at full strength: by a component beside it,
/// or by a strongly powered block that it touches.
pub open spec fn seeded(cells: Map<Pos, Block>, c: Circuit, p: Pos) -> bool {
    &&& is_dust(block_at(cells, p))
    &&& {
        ||| exists|q: Pos| #[trigger] active(cells, c, q) && ends_of(block_at(cells, q), q).contains(p)
        ||| exists|b: Pos| #[trigger] strong(cells, c, b) && around(b).contains(p)
    }
}

/// Where the dust at `p` conducts in direction `d`. A wire runs up the side of a
/// block only where nothing solid caps it, and down only past a block that is not
/// solid.
pub open spec fn link(cells: Map<Pos, Block>, p: Pos, d: Dir) -> Option<Pos> {
    let n = beside(p, d);
    match side_of(shape_at(cells, p), d) {
        Conn::Empty => None,
        Conn::Up => if is_dust(block_at(cells, above(n))) && !(block_at(cells, above(p)) is Solid) {
            Some(above(n))
        } else {
            None
        },
        Conn::Side => if is_dust(block_at(cells, n)) {
            Some(n)
        } else if is_dust(block_at(cells, below(n))) && !(block_at(cells, n) is Solid) {
            Some(below(n))
        } else {
            None
        },
    }
}

/// Some directly driven dust leads to `p` over at most `k` links.
pub open spec fn reached(cells: Map<Pos, Block>, c: Circuit, p: Pos, k: nat) -> bool
    decreases k,
{
    if k == 0 {
        seeded(cells, c, p)
    } else {
        ||| reached(cells, c, p, (k - 1) as nat)
        ||| exists|m: Pos, d: Dir| #[trigger]
            link(cells, m, d) == Some(p) && reached(cells, c, m, (k - 1) as nat)
    }
}

/// Full strength less the number of links from the nearest driven dust that is at
/// least `k` links away.
pub open spec fn level_from(cells: Map<Pos, Block>, c: Circuit, p: Pos, k: nat) -> nat
    decreases 15 - k,
{
    if k >= 15 {
        0
    } else if reached(cells, c, p, k) {
        (15 - k) as nat
    } else {
        level_from(cells, c, p, k + 1)
    }
}

/// The level of the dust at `p`: fifteen where it is driven, one less per link.
pub open spec fn dust_level(cells: Map<Pos, Block>, c: Circuit, p: Pos) -> nat {
    level_from(cells, c, p, 0)
}

/// Dust of this shape points in direction `d`. Dust with a single connection
/// renders as a straight line and therefore points at both ends of that axis.
pub open spec fn points(s: DustShape, d: Dir) -> bool {
    ||| side_of(s, d) != Conn::Empty
    ||| side_of(s, opposite_of(d)) != Conn::Empty && forall|e: Dir|
        e != opposite_of(d) ==> #[trigger] side_of(s, e) == Conn::Empty
}

/// The dust at `q` powers what is at `p`: the block beneath, and the blocks it
/// points into.
pub open spec fn powers(cells: Map<Pos, Block>, q: Pos, p: Pos) -> bool {
    ||| p == below(q)
    ||| exists|d: Dir| #[trigger] points(shape_at(cells, q), d) && p == beside(q, d)
}

/// The block at `p` is weakly powered. Any full block can receive weak power,
/// including a lamp.
pub open spec fn weak(cells: Map<Pos, Block>, c: Circuit, p: Pos) -> bool {
    &&& opaque_block(block_at(cells, p))
    &&& exists|q: Pos| #[trigger] dust_level(cells, c, q) > 0 && powers(cells, q, p)
}

/// The block at `p` is powered by any means.
pub open spec fn powered(cells: Map<Pos, Block>, c: Circuit, p: Pos) -> bool {
    strong(cells, c, p) || weak(cells, c, p)
}

/// The block that a torch is mounted on.
pub open spec fn support_of(b: Block, p: Pos) -> Pos {
    match b {
        Block::WallTorch { facing, .. } => beside(p, opposite_of(facing)),
        _ => below(p),
    }
}

/// A signal enters the repeater at `p` from its input side.
pub open spec fn repeater_reads(cells: Map<Pos, Block>, c: Circuit, p: Pos, facing: Dir) -> bool {
    let src = beside(p, facing);
    match block_at(cells, src) {
        Block::Dust { .. } => dust_level(cells, c, src) > 0,
        Block::WallTorch { .. } => on(c.torch_lit, src),
        Block::Torch { .. } => on(c.torch_lit, src),
        Block::Lever { .. } => on(c.lever_on, src),
        Block::Repeater { facing: f2, .. } => beside(src, opposite_of(f2)) == p && on(
            c.repeater_powered,
            src,
        ),
        Block::Solid(_) => powered(cells, c, src),
        _ => false,
    }
}

/// `t` lies in the burnout window that ends at `now`.
pub open spec fn recent(now: u64, t: u64) -> bool {
    now - t <= BURNOUT_WINDOW
}

/// The torch at `p` toggled too often in the window that ends at `now`.
pub open spec fn burned(c: Circuit, p: Pos, now: u64) -> bool {
    c.toggles.contains_key(p) && c.toggles[p].filter(|t: u64| recent(now, t)).len()
        >= BURNOUT_TOGGLES
}

/// A transition of `p` is due at tick `now`.
pub open spec fn due(c: Circuit, p: Pos, now: u64) -> bool {
    c.pending.contains_key(p) && c.pending[p].0 <= now
}

/// The toggles of a torch once it has toggled at `now`.
pub open spec fn toggled(c: Circuit, p: Pos, now: u64) -> Seq<u64> {
    let before = if c.toggles.contains_key(p) {
        c.toggles[p]
    } else {
        Seq::empty()
    };
    before.push(now).filter(|t: u64| recent(now, t))
}

/// Everything scheduled for tick `now` has taken place.
pub open spec fn fired(cells: Map<Pos, Block>, c: Circuit, now: u64) -> Circuit {
    let torch = |p: Pos| due(c, p, now) && is_torch(block_at(cells, p));
    let repeater = |p: Pos| due(c, p, now) && block_at(cells, p) is Repeater;
    Circuit {
        torch_lit: Map::new(
            |p: Pos| c.torch_lit.contains_key(p) || torch(p),
            |p: Pos|
                if torch(p) {
                    c.pending[p].1
                } else {
                    c.torch_lit[p]
                },
        ),
        repeater_powered: Map::new(
            |p: Pos| c.repeater_powered.contains_key(p) || repeater(p),
            |p: Pos|
                if repeater(p) {
                    c.pending[p].1
                } else {
                    c.repeater_powered[p]
                },
        ),
        lever_on: c.lever_on,
        pending: Map::new(
            |p: Pos| c.pending.contains_key(p) && !due(c, p, now),
            |p: Pos| c.pending[p],
        ),
        toggles: Map::new(
            |p: Pos| c.toggles.contains_key(p) || torch(p),
            |p: Pos|
                if torch(p) {
                    toggled(c, p, now)
                } else {
                    c.toggles[p]
                },
        ),
        tick: now,
    }
}

/// The transition of `p` that is scheduled once it should go to `target` but is at
/// `current`: none if it is there, the one that is on its way, or a new one.
pub open spec fn rescheduled(
    c: Circuit,
    p: Pos,
    target: bool,
    current: bool,
    delay: u64,
) -> Option<(u64, bool)> {
    if target == current {
        None
    } else if c.pending.contains_key(p) && c.pending[p].1 == target {
        Some(c.pending[p])
    } else {
        Some(((c.tick + delay) as u64, target))
    }
}

/// A repeater's delay: at least one tick.
pub open spec fn repeater_delay(b: Block) -> u64 {
    match b {
        Block::Repeater { delay, .. } => if delay < 1 {
            1
        } else {
            delay as u64
        },
        _ => 1,
    }
}

/// What is scheduled for `p` after the components have looked at the power around
/// them.
pub open spec fn next_pending(cells: Map<Pos, Block>, c: Circuit, p: Pos) -> Option<(u64, bool)> {
    match block_at(cells, p) {
        Block::Repeater { facing, .. } => rescheduled(
            c,
            p,
            repeater_reads(cells, c, p, facing),
            on(c.repeater_powered, p),
            repeater_delay(block_at(cells, p)),
        ),
        b => if is_torch(b) {
            if burned(c, p, c.tick) {
                None
            } else {
                rescheduled(
                    c,
                    p,
                    !powered(cells, c, support_of(b, p)),
                    on(c.torch_lit, p),
                    1,
                )
            }
        } else if c.pending.contains_key(p) {
            Some(c.pending[p])
        } else {
            None
        },
    }
}

/// Every component has looked at the power around it.
pub open spec fn evaluated(cells: Map<Pos, Block>, c: Circuit) -> Circuit {
    Circuit {
        torch_lit: Map::new(
            |p: Pos| c.torch_lit.contains_key(p),
            |p: Pos| c.torch_lit[p] && !(is_torch(block_at(cells, p)) && burned(c, p, c.tick)),
        ),
        pending: Map::new(
            |p: Pos| next_pending(cells, c, p) is Some,
            |p: Pos| next_pending(cells, c, p)->0,
        ),
        ..c
    }
}

/// One redstone tick.
pub open spec fn ticked(cells: Map<Pos, Block>, c: Circuit) -> Circuit {
    evaluated(cells, fired(cells, c, (c.tick + 1) as u64))
}

/// `n` redstone ticks.
pub open spec fn ticked_by(cells: Map<Pos, Block>, c: Circuit, n: nat) -> Circuit
    decreases n,
{
    if n == 0 {
        c
    } else {
        ticked(cells, ticked_by(cells, c, (n - 1) as nat))
    }
}

/// Nothing is scheduled.
pub open spec fn quiet(c: Circuit) -> bool {
    c.pending == Map::<Pos, (u64, bool)>::empty()
}

/// Every torch and repeater has a state.
pub open spec fn covers(cells: Map<Pos, Block>, c: Circuit) -> bool {
    &&& forall|p: Pos|
        is_torch(#[trigger] block_at(cells, p)) ==> c.torch_lit.contains_key(p)
    &&& forall|p: Pos| #[trigger] block_at(cells, p) is Repeater ==> c.repeater_powered.contains_key(p)
}

// --- the power field -----------------------------------------------------------

/// Which blocks are powered.
pub struct BlockPower {
    strong: PosMap<bool>,
    weak: PosMap<bool>,
}

/// Combinational snapshot: dust levels and block power, derived from the
/// current state of the active components.
pub struct Field {
    pub dust: PosMap<u8>,
    pub blocks: BlockPower,
}

impl Field {
    /// The level of the dust at `p`.
    pub open spec fn level(&self, p: Pos) -> nat {
        if self.dust@.contains_key(p) {
            self.dust@[p] as nat
        } else {
            0
        }
    }

    pub closed spec fn strongly(&self, p: Pos) -> bool {
        on(self.blocks.strong@, p)
    }

    pub closed spec fn weakly(&self, p: Pos) -> bool {
        on(self.blocks.weak@, p)
    }

    /// The field shows the power in a circuit.
    pub open spec fn shows(&self, cells: Map<Pos, Block>, c: Circuit) -> bool {
        &&& forall|p: Pos| #[trigger] self.level(p) == dust_level(cells, c, p)
        &&& forall|p: Pos| #[trigger] self.strongly(p) == strong(cells, c, p)
        &&& forall|p: Pos| #[trigger] self.weakly(p) == weak(cells, c, p)
    }

    pub fn dust_at(&self, p: Pos) -> (r: u8)
        ensures
            r == self.level(p),
    {
        match self.dust.get(p) {
            Some(v) => *v,
            None => 0,
        }
    }

    /// True if the block at `p` is powered by any means. This is the predicate
    /// that decides whether a torch attached to `p` goes out.
    pub fn block_powered(&self, p: Pos) -> (r: bool)
        ensures
            r == (self.strongly(p) || self.weakly(p)),
    {
        is_on(&self.blocks.strong, p) || is_on(&self.blocks.weak, p)
    }

    pub fn block_strong(&self, p: Pos) -> (r: bool)
        ensures
            r == self.strongly(p),
    {
        is_on(&self.blocks.strong, p)
    }
}

fn is_on(m: &PosMap<bool>, p: Pos) -> (r: bool)
    ensures
        r == on(m@, p),
{
    match m.get(p) {
        Some(v) => *v,
        None => false,
    }
}

// --- component states ------------------------------------------------------------

/// What is scheduled, and when torches toggled.
#[derive(Debug)]
pub struct History {
    pending: PosMap<(u64, bool)>,
    /// Redstone torches burn out if driven too fast, and that is the mechanism the
    /// real game uses to damp a circulating pulse.
    torch_toggles: PosMap<Vec<u64>>,
}

impl History {
    pub closed spec fn pending(&self) -> Map<Pos, (u64, bool)> {
        self.pending@
    }

    pub closed spec fn toggles(&self) -> Map<Pos, Seq<u64>> {
        self.torch_toggles@.map_values(|v: Vec<u64>| v@)
    }
}

/// Mutable state of every active component in the grid.
#[derive(Debug)]
pub struct SimState {
    pub torch_lit: PosMap<bool>,
    pub repeater_powered: PosMap<bool>,
    pub lever_on: PosMap<bool>,
    pub history: History,
    pub tick: u64,
}

impl View for SimState {
    type V = Circuit;

    open spec fn view(&self) -> Circuit {
        Circuit {
            torch_lit: self.torch_lit@,
            repeater_powered: self.repeater_powered@,
            lever_on: self.lever_on@,
            pending: self.history.pending(),
            toggles: self.history.toggles(),
            tick: self.tick,
        }
    }
}

/// No component has a state, and nothing is scheduled.
pub open spec fn blank() -> Circuit {
    Circuit {
        torch_lit: Map::empty(),
        repeater_powered: Map::empty(),
        lever_on: Map::empty(),
        pending: Map::empty(),
        toggles: Map::empty(),
        tick: 0,
    }
}

/// The same toggles again.
fn copy_toggles(m: &PosMap<Vec<u64>>) -> (r: PosMap<Vec<u64>>)
    ensures
        r@.map_values(|v: Vec<u64>| v@) == m@.map_values(|v: Vec<u64>| v@),
{
    let ps = m.positions();
    let mut r: PosMap<Vec<u64>> = PosMap::new();
    for i in 0..ps.len()
        invariant
            forall|p: Pos| #[trigger] m@.contains_key(p) <==> ps@.contains(p),
            forall|p: Pos| #[trigger] r@.contains_key(p) <==> ps@.take(i as int).contains(p),
            forall|p: Pos| #[trigger] r@.contains_key(p) ==> m@.contains_key(p) && r@[p]@ == m@[p]@,
    {
        let p: Pos = ps[i];
        assert(ps@.contains(p));
        match m.get(p) {
            Some(v) => {
                let w = v.clone();
                assert(w@ =~= v@);
                r.insert(p, w);
            },
            None => {},
        }
        proof {
            assert(ps@.take(i + 1) =~= ps@.take(i as int).push(p));
            lemma_contains_push(ps@.take(i as int), p);
        }
    }
    assert(ps@.take(ps@.len() as int) =~= ps@);
    assert(r@.map_values(|v: Vec<u64>| v@) =~= m@.map_values(|v: Vec<u64>| v@));
    r
}

impl Clone for SimState {
    fn clone(&self) -> (s: SimState)
        ensures
            s@ == self@,
    {
        SimState {
            torch_lit: self.torch_lit.clone(),
            repeater_powered: self.repeater_powered.clone(),
            lever_on: self.lever_on.clone(),
            history: History {
                pending: self.history.pending.clone(),
                torch_toggles: copy_toggles(&self.history.torch_toggles),
            },
            tick: self.tick,
        }
    }
}

impl Default for SimState {
    fn default() -> (s: SimState)
        ensures
            s@ == blank(),
    {
        let s = SimState {
            torch_lit: PosMap::new(),
            repeater_powered: PosMap::new(),
            lever_on: PosMap::new(),
            history: History { pending: PosMap::new(), torch_toggles: PosMap::new() },
            tick: 0,
        };
        assert(s@.toggles =~= blank().toggles);
        s
    }
}

impl SimState {
    /// How many transitions are still scheduled. Zero is what
    /// `run_until_stable` treats as settled, so a state with zero pending that
    /// still disagrees with a fresh run is a genuine fixed point, not a
    /// half-finished one.
    pub fn pending_len(&self) -> (n: usize)
        ensures
            self@.pending.dom().finite(),
            n == self@.pending.dom().len(),
    {
        self.history.pending.len()
    }

    /// Drop every scheduled transition. Used when a probe forces a component
    /// into a chosen state and wants the circuit to react to that alone,
    /// without a stale schedule undoing it on the next tick.
    pub fn clear_for_probe(&mut self)
        ensures
            final(self)@ == (Circuit { pending: Map::empty(), ..old(self)@ }),
    {
        self.history.pending = PosMap::new();
    }
}

// --- the simulator -----------------------------------------------------------------

/// What the dust at one position leads to.
struct Wire {
    /// The dust it conducts into.
    flows: Vec<Pos>,
    /// The positions it powers.
    powers: Vec<Pos>,
}

/// The active parts of a grid.
pub struct Parts {
    torches: Vec<Pos>,
    repeaters: Vec<Pos>,
    levers: Vec<Pos>,
    wires: PosMap<Wire>,
}

spec fn leads(w: Wire, cells: Map<Pos, Block>, p: Pos) -> bool {
    &&& forall|n: Pos| #[trigger]
        w.flows@.contains(n) <==> conducts_into(cells, p, n)
    &&& forall|n: Pos| #[trigger] w.powers@.contains(n) <==> powers(cells, p, n)
}

impl Parts {
    closed spec fn of(&self, cells: Map<Pos, Block>) -> bool {
        &&& self.torches@.no_duplicates()
        &&& self.repeaters@.no_duplicates()
        &&& forall|p: Pos| #[trigger] self.torches@.contains(p) <==> is_torch(block_at(cells, p))
        &&& forall|p: Pos| #[trigger] self.repeaters@.contains(p) <==> block_at(cells, p) is Repeater
        &&& forall|p: Pos| #[trigger] self.levers@.contains(p) <==> block_at(cells, p) is Lever
        &&& forall|p: Pos|
            is_dust(#[trigger] block_at(cells, p)) ==> self.wires@.contains_key(p) && leads(
                self.wires@[p],
                cells,
                p,
            )
    }
}

pub struct Sim<'g> {
    pub grid: &'g Grid,
    pub state: SimState,
    pub parts: Parts,
}

/// The state that the blocks of a grid are placed in.
pub open spec fn placed(cells: Map<Pos, Block>) -> Circuit {
    Circuit {
        torch_lit: Map::new(
            |p: Pos| is_torch(block_at(cells, p)),
            |p: Pos|
                match block_at(cells, p) {
                    Block::WallTorch { lit, .. } => lit,
                    Block::Torch { lit } => lit,
                    _ => false,
                },
        ),
        repeater_powered: Map::new(
            |p: Pos| block_at(cells, p) is Repeater,
            |p: Pos|
                match block_at(cells, p) {
                    Block::Repeater { powered, .. } => powered,
                    _ => false,
                },
        ),
        lever_on: Map::new(
            |p: Pos| block_at(cells, p) is Lever,
            |p: Pos|
                match block_at(cells, p) {
                    Block::Lever { powered, .. } => powered,
                    _ => false,
                },
        ),
        ..blank()
    }
}

fn ends(b: Block, q: Pos) -> (r: Vec<Pos>)
    requires
        interior(q),
    ensures
        r@ == ends_of(b, q),
{
    let mut r: Vec<Pos> = Vec::new();
    match b {
        Block::Repeater { facing, .. } => {
            r.push(offset(q, facing.opposite()));
        },
        Block::Lever { .. } => {
            return touching(q);
        },
        _ => {
            r.push(offset(q, Dir::North));
            r.push(offset(q, Dir::South));
            r.push(offset(q, Dir::West));
            r.push(offset(q, Dir::East));
            r.push(up(q));
        },
    }
    assert(r@ =~= ends_of(b, q));
    r
}

fn touching(q: Pos) -> (r: Vec<Pos>)
    requires
        interior(q),
    ensures
        r@ == around(q),
{
    let mut r: Vec<Pos> = Vec::new();
    r.push(offset(q, Dir::North));
    r.push(offset(q, Dir::South));
    r.push(offset(q, Dir::West));
    r.push(offset(q, Dir::East));
    r.push(up(q));
    r.push(down(q));
    assert(r@ =~= around(q));
    r
}

fn target(b: Block, q: Pos) -> (r: Pos)
    requires
        interior(q),
    ensures
        r == target_of(b, q),
{
    match b {
        Block::Repeater { facing, .. } => offset(q, facing.opposite()),
        Block::Lever { face, facing, .. } => match face {
            Face::Floor => down(q),
            Face::Ceiling => up(q),
            Face::Wall => offset(q, facing.opposite()),
        },
        _ => up(q),
    }
}

/// Which blocks a dust at `p` weakly powers: always the block beneath, plus
/// the blocks it points into.
fn dust_powers(grid: &Grid, p: Pos) -> (r: Vec<Pos>)
    requires
        interior(p),
    ensures
        forall|n: Pos| #[trigger] r@.contains(n) <==> powers(grid@, p, n),
{
    let mut out: Vec<Pos> = Vec::new();
    out.push(down(p));
    let shape = grid.dust_shape(p);
    let (n, s, w, e) = (
        shape.north != Conn::Empty,
        shape.south != Conn::Empty,
        shape.west != Conn::Empty,
        shape.east != Conn::Empty,
    );
    if n || (s && !w && !e) {
        out.push(offset(p, Dir::North));
    }
    if s || (n && !w && !e) {
        out.push(offset(p, Dir::South));
    }
    if w || (e && !n && !s) {
        out.push(offset(p, Dir::West));
    }
    if e || (w && !n && !s) {
        out.push(offset(p, Dir::East));
    }
    proof {
        let sh = shape_at(grid@, p);
        lemma_points(sh);
        assert forall|x: Pos| #[trigger] out@.contains(x) implies powers(grid@, p, x) by {
            let i = choose|i: int| 0 <= i < out@.len() && out@[i] == x;
            assert(x == below(p) || (points(sh, Dir::North) && x == beside(p, Dir::North)) || (points(
                sh,
                Dir::South,
            ) && x == beside(p, Dir::South)) || (points(sh, Dir::West) && x == beside(
                p,
                Dir::West,
            )) || (points(sh, Dir::East) && x == beside(p, Dir::East)));
        }
        assert forall|x: Pos| powers(grid@, p, x) implies #[trigger] out@.contains(x) by {
            if x == below(p) {
                assert(out@[0] == x);
            } else {
                let d = choose|d: Dir| #[trigger] points(sh, d) && x == beside(p, d);
                let at_n = 1int;
                let at_s = if points(sh, Dir::North) { 2int } else { 1int };
                let at_w = if points(sh, Dir::South) { at_s + 1 } else { at_s };
                let at_e = if points(sh, Dir::West) { at_w + 1 } else { at_w };
                match d {
                    Dir::North => assert(out@[at_n] == x),
                    Dir::South => assert(out@[at_s] == x),
                    Dir::West => assert(out@[at_w] == x),
                    Dir::East => assert(out@[at_e] == x),
                }
            }
        }
    }
    out
}

proof fn lemma_points(s: DustShape)
    ensures
        points(s, Dir::North) == (s.north != Conn::Empty || (s.south != Conn::Empty && s.west
            == Conn::Empty && s.east == Conn::Empty)),
        points(s, Dir::South) == (s.south != Conn::Empty || (s.north != Conn::Empty && s.west
            == Conn::Empty && s.east == Conn::Empty)),
        points(s, Dir::West) == (s.west != Conn::Empty || (s.east != Conn::Empty && s.north
            == Conn::Empty && s.south == Conn::Empty)),
        points(s, Dir::East) == (s.east != Conn::Empty || (s.west != Conn::Empty && s.north
            == Conn::Empty && s.south == Conn::Empty)),
{
    assert(side_of(s, Dir::North) == s.north);
    assert(side_of(s, Dir::South) == s.south);
    assert(side_of(s, Dir::West) == s.west);
    assert(side_of(s, Dir::East) == s.east);
}

/// Where the dust at `p` conducts in direction `d`.
fn dust_link(grid: &Grid, p: Pos, d: Dir, shape: DustShape) -> (r: Option<Pos>)
    requires
        interior(p),
        shape == shape_at(grid@, p),
    ensures
        r == link(grid@, p, d),
{
    let n = offset(p, d);
    match shape.side(d) {
        Conn::Empty => None,
        Conn::Up => {
            // Dust only climbs a step when nothing opaque caps *this* dust: the
            // wire runs up the side of the block, and a solid block overhead is
            // what it would have to pass through.
            if grid.get(up(n)).is_dust() && !grid.get(up(p)).conducts() {
                Some(up(n))
            } else {
                None
            }
        },
        Conn::Side => {
            if grid.get(n).is_dust() {
                Some(n)
            } else if grid.get(down(n)).is_dust() && !grid.get(n).conducts() {
                // Likewise going down: the step is only open if the block above
                // the lower dust - which is `n` - is not solid.
                Some(down(n))
            } else {
                None
            }
        },
    }
}

/// Dust positions this dust conducts into (its electrical neighbours).
fn dust_neighbors(grid: &Grid, p: Pos) -> (r: Vec<Pos>)
    requires
        interior(p),
    ensures
        forall|n: Pos| #[trigger]
            r@.contains(n) <==> exists|d: Dir| #[trigger] link(grid@, p, d) == Some(n),
{
    let shape = grid.dust_shape(p);
    let mut out: Vec<Pos> = Vec::new();
    push_some(&mut out, dust_link(grid, p, Dir::North, shape));
    push_some(&mut out, dust_link(grid, p, Dir::South, shape));
    push_some(&mut out, dust_link(grid, p, Dir::West, shape));
    push_some(&mut out, dust_link(grid, p, Dir::East, shape));
    proof {
        assert forall|n: Pos| (exists|d: Dir| #[trigger] link(grid@, p, d) == Some(n)) implies #[trigger] out@.contains(n) by {
            let d = choose|d: Dir| #[trigger] link(grid@, p, d) == Some(n);
            assert(d is North || d is South || d is West || d is East);
        }
        assert forall|n: Pos| #[trigger] out@.contains(n) implies exists|d: Dir| #[trigger] link(grid@, p, d) == Some(n) by {
            assert(link(grid@, p, Dir::North) == Some(n) || link(grid@, p, Dir::South) == Some(n)
                || link(grid@, p, Dir::West) == Some(n) || link(grid@, p, Dir::East) == Some(n));
        }
    }
    out
}

fn push_some(v: &mut Vec<Pos>, p: Option<Pos>)
    ensures
        forall|n: Pos| #[trigger] final(v)@.contains(n) <==> old(v)@.contains(n) || p == Some(n),
{
    match p {
        Some(q) => {
            v.push(q);
            proof {
                assert forall|n: Pos| #[trigger] v@.contains(n) <==> old(v)@.contains(n) || p == Some(n) by {
                    if old(v)@.contains(n) {
                        let i = choose|i: int| 0 <= i < old(v)@.len() && old(v)@[i] == n;
                        assert(v@[i] == n);
                    }
                    assert(v@[old(v)@.len() as int] == q);
                }
            }
        },
        None => {},
    }
}

fn copied(v: &Vec<Pos>) -> (r: Vec<Pos>)
    ensures
        r@ == v@,
{
    let mut r: Vec<Pos> = Vec::new();
    for i in 0..v.len()
        invariant
            r@ == v@.take(i as int),
    {
        r.push(v[i]);
        assert(r@ =~= v@.take(i + 1));
    }
    assert(v@.take(v@.len() as int) =~= v@);
    r
}

/// What a list with one more position holds.
pub proof fn lemma_contains_push(v: Seq<Pos>, q: Pos)
    ensures
        forall|n: Pos| #[trigger] v.push(q).contains(n) <==> v.contains(n) || n == q,
        v.no_duplicates() && !v.contains(q) ==> v.push(q).no_duplicates(),
{
    let w = v.push(q);
    assert forall|n: Pos| #[trigger] w.contains(n) <==> v.contains(n) || n == q by {
        if v.contains(n) {
            let i = choose|i: int| 0 <= i < v.len() && v[i] == n;
            assert(w[i] == n);
        }
        assert(w[v.len() as int] == q);
    }
}

/// The parts of the grid that were seen so far.
spec fn gathered(parts: Parts, s: Circuit, cells: Map<Pos, Block>, seen: Set<Pos>) -> bool {
    &&& parts.torches@.no_duplicates()
    &&& parts.repeaters@.no_duplicates()
    &&& forall|p: Pos| #[trigger]
        parts.torches@.contains(p) <==> seen.contains(p) && is_torch(block_at(cells, p))
    &&& forall|p: Pos| #[trigger]
        parts.repeaters@.contains(p) <==> seen.contains(p) && block_at(cells, p) is Repeater
    &&& forall|p: Pos| #[trigger]
        parts.levers@.contains(p) <==> seen.contains(p) && block_at(cells, p) is Lever
    &&& forall|p: Pos| #[trigger]
        seen.contains(p) && is_dust(block_at(cells, p)) ==> parts.wires@.contains_key(p) && leads(
            parts.wires@[p],
            cells,
            p,
        )
    &&& s.torch_lit == placed(cells).torch_lit.restrict(seen)
    &&& s.repeater_powered == placed(cells).repeater_powered.restrict(seen)
    &&& s.lever_on == placed(cells).lever_on.restrict(seen)
    &&& s == (Circuit {
        torch_lit: s.torch_lit,
        repeater_powered: s.repeater_powered,
        lever_on: s.lever_on,
        ..blank()
    })
}

/// Note one cell of the grid.
fn gather(parts: &mut Parts, state: &mut SimState, grid: &Grid, p: Pos, b: Block, Ghost(seen): Ghost<Set<Pos>>)
    requires
        gathered(*old(parts), old(state)@, grid@, seen),
        grid@.contains_key(p),
        grid@[p] == b,
        interior(p),
        !seen.contains(p),
    ensures
        gathered(*final(parts), final(state)@, grid@, seen.insert(p)),
{
    let ghost all = placed(grid@);
    let ghost next = seen.insert(p);
    assert(!parts.torches@.contains(p));
    assert(!parts.repeaters@.contains(p));
    proof {
        lemma_contains_push(parts.torches@, p);
        lemma_contains_push(parts.repeaters@, p);
        lemma_contains_push(parts.levers@, p);
    }
    match b {
        Block::WallTorch { lit, .. } => {
            state.torch_lit.insert(p, lit);
            parts.torches.push(p);
        },
        Block::Torch { lit } => {
            state.torch_lit.insert(p, lit);
            parts.torches.push(p);
        },
        Block::Repeater { powered, .. } => {
            state.repeater_powered.insert(p, powered);
            parts.repeaters.push(p);
        },
        Block::Lever { powered, .. } => {
            state.lever_on.insert(p, powered);
            parts.levers.push(p);
        },
        Block::Dust { .. } => {
            let wire = Wire { flows: dust_neighbors(grid, p), powers: dust_powers(grid, p) };
            parts.wires.insert(p, wire);
        },
        _ => {},
    }
    proof {
        assert(state@.torch_lit =~= all.torch_lit.restrict(next));
        assert(state@.repeater_powered =~= all.repeater_powered.restrict(next));
        assert(state@.lever_on =~= all.lever_on.restrict(next));
    }
}

/// One of the first `n` components in `list` powers the block at `p` strongly.
spec fn strong_by(cells: Map<Pos, Block>, c: Circuit, list: Seq<Pos>, n: int, p: Pos) -> bool {
    &&& block_at(cells, p) is Solid
    &&& exists|j: int|
        0 <= j < n && active(cells, c, #[trigger] list[j]) && target_of(
            block_at(cells, list[j]),
            list[j],
        ) == p
}

proof fn lemma_strong_by(cells: Map<Pos, Block>, c: Circuit, list: Seq<Pos>, n: int, p: Pos)
    requires
        0 <= n < list.len(),
    ensures
        strong_by(cells, c, list, n + 1, p) <==> strong_by(cells, c, list, n, p) || (block_at(
            cells,
            p,
        ) is Solid && active(cells, c, list[n]) && target_of(block_at(cells, list[n]), list[n])
            == p),
{
}

/// One of the first `n` components in `list` drives dust at `p`.
spec fn driven_by(cells: Map<Pos, Block>, c: Circuit, list: Seq<Pos>, n: int, p: Pos) -> bool {
    exists|j: int|
        0 <= j < n && active(cells, c, #[trigger] list[j]) && ends_of(
            block_at(cells, list[j]),
            list[j],
        ).contains(p)
}

proof fn lemma_driven_by(cells: Map<Pos, Block>, c: Circuit, list: Seq<Pos>, n: int, p: Pos)
    requires
        0 <= n < list.len(),
    ensures
        driven_by(cells, c, list, n + 1, p) <==> driven_by(cells, c, list, n, p) || (active(
            cells,
            c,
            list[n],
        ) && ends_of(block_at(cells, list[n]), list[n]).contains(p)),
{
}

/// `p` touches one of the first `n` blocks.
spec fn near(blocks: Seq<Pos>, n: int, p: Pos) -> bool {
    exists|j: int| 0 <= j < n && around(#[trigger] blocks[j]).contains(p)
}

proof fn lemma_near(blocks: Seq<Pos>, n: int, p: Pos)
    requires
        0 <= n < blocks.len(),
    ensures
        near(blocks, n + 1, p) <==> near(blocks, n, p) || around(blocks[n]).contains(p),
{
}

/// The dust at `p` conducts into the dust at `n`.
pub open spec fn conducts_into(cells: Map<Pos, Block>, p: Pos, n: Pos) -> bool {
    exists|d: Dir| #[trigger] link(cells, p, d) == Some(n)
}

/// One of the first `n` in `front` conducts into `p`.
spec fn fed(cells: Map<Pos, Block>, front: Seq<Pos>, n: int, p: Pos) -> bool {
    exists|j: int| 0 <= j < n && conducts_into(cells, #[trigger] front[j], p)
}

proof fn lemma_fed(cells: Map<Pos, Block>, front: Seq<Pos>, n: int, p: Pos)
    requires
        0 <= n < front.len(),
    ensures
        fed(cells, front, n + 1, p) <==> fed(cells, front, n, p) || conducts_into(cells, front[n], p),
{
}

/// One of the first `n` in `lit` powers `p`.
spec fn weak_by(cells: Map<Pos, Block>, lit: Seq<Pos>, n: int, p: Pos) -> bool {
    exists|j: int| 0 <= j < n && powers(cells, #[trigger] lit[j], p)
}

proof fn lemma_weak_by(cells: Map<Pos, Block>, lit: Seq<Pos>, n: int, p: Pos)
    requires
        0 <= n < lit.len(),
    ensures
        weak_by(cells, lit, n + 1, p) <==> weak_by(cells, lit, n, p) || powers(cells, lit[n], p),
{
}

/// Only dust is reached.
pub proof fn lemma_reached_dust(cells: Map<Pos, Block>, c: Circuit, p: Pos, k: nat)
    requires
        reached(cells, c, p, k),
    ensures
        is_dust(block_at(cells, p)),
    decreases k,
{
    if k > 0 && reached(cells, c, p, (k - 1) as nat) {
        lemma_reached_dust(cells, c, p, (k - 1) as nat);
    }
}

/// What is reached over few links is reached over more.
pub proof fn lemma_reached_further(cells: Map<Pos, Block>, c: Circuit, p: Pos, k: nat, n: nat)
    requires
        reached(cells, c, p, k),
        k <= n,
    ensures
        reached(cells, c, p, n),
    decreases n,
{
    if n > k {
        lemma_reached_further(cells, c, p, k, (n - 1) as nat);
    }
}

proof fn lemma_level_skips(cells: Map<Pos, Block>, c: Circuit, p: Pos, j: nat, k: nat)
    requires
        j <= k < 15,
        reached(cells, c, p, k),
        k > 0 ==> !reached(cells, c, p, (k - 1) as nat),
    ensures
        level_from(cells, c, p, j) == 15 - k,
    decreases k - j,
{
    if j < k {
        if reached(cells, c, p, j) {
            lemma_reached_further(cells, c, p, j, (k - 1) as nat);
        }
        lemma_level_skips(cells, c, p, j + 1, k);
    }
}

/// Dust that is first reached over `k` links has `k` less than full strength.
pub proof fn lemma_first_reached(cells: Map<Pos, Block>, c: Circuit, p: Pos, k: nat)
    requires
        k < 15,
        reached(cells, c, p, k),
        k > 0 ==> !reached(cells, c, p, (k - 1) as nat),
    ensures
        dust_level(cells, c, p) == 15 - k,
{
    lemma_level_skips(cells, c, p, 0, k);
}

/// Dust has a level if it is reached over few enough links.
pub proof fn lemma_level_positive(cells: Map<Pos, Block>, c: Circuit, p: Pos, k: nat)
    requires
        k <= 15,
    ensures
        level_from(cells, c, p, k) > 0 <==> k < 15 && reached(cells, c, p, 14),
    decreases 15 - k,
{
    if k < 15 {
        if reached(cells, c, p, k) {
            lemma_reached_further(cells, c, p, k, 14);
        } else {
            lemma_level_positive(cells, c, p, k + 1);
        }
    }
}

proof fn lemma_next_front(cells: Map<Pos, Block>, c: Circuit, front: Seq<Pos>, p: Pos, k: nat)
    requires
        forall|q: Pos| #[trigger]
            front.contains(q) <==> reached(cells, c, q, k) && (k == 0 || !reached(
                cells,
                c,
                q,
                (k - 1) as nat,
            )),
    ensures
        reached(cells, c, p, k + 1) <==> reached(cells, c, p, k) || fed(
            cells,
            front,
            front.len() as int,
            p,
        ),
{
    if reached(cells, c, p, k + 1) && !reached(cells, c, p, k) {
        let (m, d) = choose|m: Pos, d: Dir| #[trigger]
            link(cells, m, d) == Some(p) && reached(cells, c, m, k);
        if k > 0 && reached(cells, c, m, (k - 1) as nat) {
            assert(reached(cells, c, p, k));
        }
        assert(front.contains(m));
        let j = choose|j: int| 0 <= j < front.len() && front[j] == m;
        assert(conducts_into(cells, front[j], p));
    }
    if fed(cells, front, front.len() as int, p) {
        let j = choose|j: int| 0 <= j < front.len() && conducts_into(cells, #[trigger] front[j], p);
        assert(front.contains(front[j]));
        let d = choose|d: Dir| #[trigger] link(cells, front[j], d) == Some(p);
        assert(link(cells, front[j], d) == Some(p) && reached(cells, c, front[j], k));
        assert(reached(cells, c, p, k + 1));
    }
}

/// The dust that has a level is at full strength, and is listed.
spec fn full(level: Map<Pos, u8>, front: Seq<Pos>) -> bool {
    &&& forall|p: Pos| #[trigger] level.contains_key(p) <==> front.contains(p)
    &&& forall|p: Pos| #[trigger] level.contains_key(p) ==> level[p] == MAX_POWER
}

/// What the repeater at `p` reads.
spec fn reads_at(cells: Map<Pos, Block>, c: Circuit, p: Pos) -> bool {
    match block_at(cells, p) {
        Block::Repeater { facing, .. } => repeater_reads(cells, c, p, facing),
        _ => false,
    }
}

/// Components keep having a state.
pub proof fn lemma_covers(cells: Map<Pos, Block>, c: Circuit)
    requires
        covers(cells, c),
    ensures
        covers(cells, fired(cells, c, (c.tick + 1) as u64)),
        covers(cells, ticked(cells, c)),
{
}

/// What `fired` says, of the positions in `done` only.
spec fn fired_in(cells: Map<Pos, Block>, c: Circuit, now: u64, done: Set<Pos>) -> Circuit {
    let all = fired(cells, c, now);
    Circuit {
        torch_lit: mixed(all.torch_lit, c.torch_lit, done),
        repeater_powered: mixed(all.repeater_powered, c.repeater_powered, done),
        lever_on: c.lever_on,
        pending: mixed(all.pending, c.pending, done),
        toggles: mixed(all.toggles, c.toggles, done),
        tick: c.tick,
    }
}

/// What `evaluated` says, of the positions in `done` only.
spec fn evaluated_in(cells: Map<Pos, Block>, c: Circuit, done: Set<Pos>) -> Circuit {
    let all = evaluated(cells, c);
    Circuit {
        torch_lit: mixed(all.torch_lit, c.torch_lit, done),
        pending: mixed(all.pending, c.pending, done),
        ..c
    }
}

/// The first map on `done`, the second elsewhere.
spec fn mixed<V>(a: Map<Pos, V>, b: Map<Pos, V>, done: Set<Pos>) -> Map<Pos, V> {
    Map::new(
        |p: Pos|
            if done.contains(p) {
                a.contains_key(p)
            } else {
                b.contains_key(p)
            },
        |p: Pos|
            if done.contains(p) {
                a[p]
            } else {
                b[p]
            },
    )
}

/// Circuits with the same maps and tick are the same.
proof fn lemma_same_circuit(a: Circuit, b: Circuit)
    requires
        a.torch_lit =~= b.torch_lit,
        a.repeater_powered =~= b.repeater_powered,
        a.lever_on =~= b.lever_on,
        a.pending =~= b.pending,
        a.toggles =~= b.toggles,
        a.tick == b.tick,
    ensures
        a == b,
{
}

proof fn lemma_filter_push(s: Seq<u64>, t: u64, now: u64)
    ensures
        s.push(t).filter(|x: u64| recent(now, x)) == if recent(now, t) {
            s.filter(|x: u64| recent(now, x)).push(t)
        } else {
            s.filter(|x: u64| recent(now, x))
        },
{
    reveal(Seq::filter);
    assert(s.push(t).drop_last() =~= s);
}

/// How many toggles are recent at `now`.
fn recent_count(h: &Vec<u64>, now: u64) -> (n: usize)
    ensures
        n == h@.filter(|t: u64| recent(now, t)).len(),
{
    let mut n: usize = 0;
    proof {
        reveal(Seq::filter);
        assert(h@.take(0).filter(|t: u64| recent(now, t)) =~= Seq::empty());
    }
    for i in 0..h.len()
        invariant
            n <= i,
            n == h@.take(i as int).filter(|t: u64| recent(now, t)).len(),
    {
        let t: u64 = h[i];
        proof {
            assert(h@.take(i + 1) =~= h@.take(i as int).push(t));
            lemma_filter_push(h@.take(i as int), t, now);
        }
        if t >= now || now - t <= BURNOUT_WINDOW {
            n = n + 1;
        }
    }
    assert(h@.take(h@.len() as int) =~= h@);
    n
}

/// The toggles that are recent once another has come at `now`.
fn recent_toggles(h: &Vec<u64>, now: u64) -> (r: Vec<u64>)
    ensures
        r@ == h@.push(now).filter(|t: u64| recent(now, t)),
{
    let mut r: Vec<u64> = Vec::new();
    proof {
        reveal(Seq::filter);
        assert(h@.take(0).filter(|t: u64| recent(now, t)) =~= Seq::empty());
    }
    for i in 0..h.len()
        invariant
            r@ == h@.take(i as int).filter(|t: u64| recent(now, t)),
    {
        let t: u64 = h[i];
        proof {
            assert(h@.take(i + 1) =~= h@.take(i as int).push(t));
            lemma_filter_push(h@.take(i as int), t, now);
        }
        if t >= now || now - t <= BURNOUT_WINDOW {
            r.push(t);
        }
    }
    proof {
        assert(h@.take(h@.len() as int) =~= h@);
        lemma_filter_push(h@, now, now);
    }
    r.push(now);
    r
}

impl<'g> Sim<'g> {
    /// The parts are those of the grid, and every cell has room around it.
    pub closed spec fn wf(&self) -> bool {
        self.parts.of(self.grid@) && all_interior(self.grid@)
    }

    /// A simulation that begins in the state the blocks were placed in.
    pub fn new(grid: &'g Grid) -> (s: Sim<'g>)
        requires
            all_interior(grid@),
        ensures
            s.wf(),
            s.grid == grid,
            s.state@ == placed(grid@),
            covers(grid@, s.state@),
    {
        let mut state = SimState::default();
        let mut parts = Parts {
            torches: Vec::new(),
            repeaters: Vec::new(),
            levers: Vec::new(),
            wires: PosMap::new(),
        };
        let cells = grid.iter();
        let ghost order = cells@.map_values(|c: (Pos, Block)| c.0);
        let ghost mut seen: Set<Pos> = Set::empty();
        proof {
            let all = placed(grid@);
            assert(all.torch_lit.restrict(seen) =~= Map::empty());
            assert(all.repeater_powered.restrict(seen) =~= Map::empty());
            assert(all.lever_on.restrict(seen) =~= Map::empty());
        }
        for i in 0..cells.len()
            invariant
                all_interior(grid@),
                order == cells@.map_values(|c: (Pos, Block)| c.0),
                crate::posmap::by_layer(order),
                forall|j: int|
                    0 <= j < cells@.len() ==> grid@.contains_key((#[trigger] cells@[j]).0)
                        && cells@[j].1 == grid@[cells@[j].0],
                gathered(parts, state@, grid@, seen),
                forall|j: int| 0 <= j < i ==> seen.contains(#[trigger] order[j]),
                forall|p: Pos| #[trigger]
                    seen.contains(p) ==> exists|j: int| 0 <= j < i && #[trigger] order[j] == p,
        {
            let (p, b) = cells[i];
            assert(grid@.contains_key(cells@[i as int].0));
            assert(order[i as int] == p);
            assert(!seen.contains(p)) by {
                if seen.contains(p) {
                    let j = choose|j: int| 0 <= j < i && #[trigger] order[j] == p;
                    assert(crate::posmap::layer_rank(order[j]) < crate::posmap::layer_rank(order[i as int]));
                }
            }
            gather(&mut parts, &mut state, grid, p, b, Ghost(seen));
            proof {
                seen = seen.insert(p);
            }
        }
        proof {
            let all = placed(grid@);
            assert forall|p: Pos| #[trigger] grid@.contains_key(p) implies seen.contains(p) by {
                let j = choose|j: int| 0 <= j < cells@.len() && cells@[j] == (p, block_at(grid@, p));
                assert(seen.contains(order[j]));
            }
            assert forall|p: Pos| is_dust(#[trigger] block_at(grid@, p)) implies seen.contains(p) by {}
            assert(state@.torch_lit =~= all.torch_lit);
            assert(state@.repeater_powered =~= all.repeater_powered);
            assert(state@.lever_on =~= all.lever_on);
        }
        Sim { grid, state, parts }
    }

    pub fn set_lever(&mut self, p: Pos, on: bool)
        requires
            old(self).wf(),
        ensures
            final(self).wf(),
            final(self).grid == old(self).grid,
            final(self).state@ == (Circuit {
                lever_on: old(self).state@.lever_on.insert(p, on),
                ..old(self).state@
            }),
    {
        self.state.lever_on.insert(p, on);
    }

    fn is_active(&self, q: Pos) -> (r: bool)
        ensures
            r == active(self.grid@, self.state@, q),
    {
        match self.grid.get(q) {
            Block::WallTorch { .. } => is_on(&self.state.torch_lit, q),
            Block::Torch { .. } => is_on(&self.state.torch_lit, q),
            Block::Repeater { .. } => is_on(&self.state.repeater_powered, q),
            Block::Lever { .. } => is_on(&self.state.lever_on, q),
            _ => false,
        }
    }

    /// Mark the blocks that the components in `list` power strongly.
    fn mark_strong(&self, list: &Vec<Pos>, strong: &mut PosMap<bool>, blocks: &mut Vec<Pos>)
        requires
            self.wf(),
            forall|j: int| 0 <= j < list@.len() ==> interior(#[trigger] list@[j]),
            forall|p: Pos| #[trigger] old(blocks)@.contains(p) <==> on(old(strong)@, p),
        ensures
            forall|p: Pos| #[trigger]
                on(final(strong)@, p) <==> on(old(strong)@, p) || strong_by(
                    self.grid@,
                    self.state@,
                    list@,
                    list@.len() as int,
                    p,
                ),
            forall|p: Pos| #[trigger] final(blocks)@.contains(p) <==> on(final(strong)@, p),
    {
        for i in 0..list.len()
            invariant
                self.wf(),
                forall|j: int| 0 <= j < list@.len() ==> interior(#[trigger] list@[j]),
                forall|p: Pos| #[trigger] blocks@.contains(p) <==> on(strong@, p),
                forall|p: Pos| #[trigger]
                    on(strong@, p) <==> on(old(strong)@, p) || strong_by(
                        self.grid@,
                        self.state@,
                        list@,
                        i as int,
                        p,
                    ),
        {
            let q: Pos = list[i];
            let ghost before = strong@;
            if self.is_active(q) {
                let a = target(self.grid.get(q), q);
                if self.grid.get(a).conducts() && !is_on(strong, a) {
                    proof {
                        lemma_contains_push(blocks@, a);
                    }
                    strong.insert(a, true);
                    blocks.push(a);
                }
            }
            proof {
                assert forall|p: Pos| #[trigger] on(strong@, p) <==> on(old(strong)@, p) || strong_by(
                    self.grid@,
                    self.state@,
                    list@,
                    i + 1,
                    p,
                ) by {
                    lemma_strong_by(self.grid@, self.state@, list@, i as int, p);
                    assert(on(before, p) <==> on(old(strong)@, p) || strong_by(
                        self.grid@,
                        self.state@,
                        list@,
                        i as int,
                        p,
                    ));
                }
            }
        }
    }

    /// Seed the dust among `ps` at full strength.
    fn seed(&self, level: &mut PosMap<u8>, front: &mut Vec<Pos>, ps: &Vec<Pos>)
        requires
            full(old(level)@, old(front)@),
        ensures
            full(final(level)@, final(front)@),
            forall|p: Pos| #[trigger]
                final(level)@.contains_key(p) <==> old(level)@.contains_key(p) || (is_dust(
                    block_at(self.grid@, p),
                ) && ps@.contains(p)),
    {
        for i in 0..ps.len()
            invariant
                full(level@, front@),
                forall|p: Pos| #[trigger]
                    level@.contains_key(p) <==> old(level)@.contains_key(p) || (is_dust(
                        block_at(self.grid@, p),
                    ) && ps@.take(i as int).contains(p)),
        {
            let p: Pos = ps[i];
            proof {
                assert(ps@.take(i + 1) =~= ps@.take(i as int).push(p));
                lemma_contains_push(ps@.take(i as int), p);
            }
            if self.grid.get(p).is_dust() && !level.contains(p) {
                proof {
                    lemma_contains_push(front@, p);
                }
                level.insert(p, MAX_POWER);
                front.push(p);
            }
        }
        assert(ps@.take(ps@.len() as int) =~= ps@);
    }

    /// Seed the dust that the components in `list` drive.
    fn seed_ends(&self, level: &mut PosMap<u8>, front: &mut Vec<Pos>, list: &Vec<Pos>)
        requires
            full(old(level)@, old(front)@),
            forall|j: int| 0 <= j < list@.len() ==> interior(#[trigger] list@[j]),
        ensures
            full(final(level)@, final(front)@),
            forall|p: Pos| #[trigger]
                final(level)@.contains_key(p) <==> old(level)@.contains_key(p) || (is_dust(
                    block_at(self.grid@, p),
                ) && driven_by(self.grid@, self.state@, list@, list@.len() as int, p)),
    {
        for i in 0..list.len()
            invariant
                forall|j: int| 0 <= j < list@.len() ==> interior(#[trigger] list@[j]),
                full(level@, front@),
                forall|p: Pos| #[trigger]
                    level@.contains_key(p) <==> old(level)@.contains_key(p) || (is_dust(
                        block_at(self.grid@, p),
                    ) && driven_by(self.grid@, self.state@, list@, i as int, p)),
        {
            let q: Pos = list[i];
            let ghost before = level@;
            if self.is_active(q) {
                let ps = ends(self.grid.get(q), q);
                self.seed(level, front, &ps);
            }
            proof {
                assert forall|p: Pos| #[trigger] level@.contains_key(p) <==> old(level)@.contains_key(p)
                    || (is_dust(block_at(self.grid@, p)) && driven_by(
                    self.grid@,
                    self.state@,
                    list@,
                    i + 1,
                    p,
                )) by {
                    lemma_driven_by(self.grid@, self.state@, list@, i as int, p);
                    assert(before.contains_key(p) <==> old(level)@.contains_key(p) || (is_dust(
                        block_at(self.grid@, p),
                    ) && driven_by(self.grid@, self.state@, list@, i as int, p)));
                }
            }
        }
    }

    /// Seed the dust around the strongly powered blocks.
    fn seed_around(&self, level: &mut PosMap<u8>, front: &mut Vec<Pos>, blocks: &Vec<Pos>)
        requires
            full(old(level)@, old(front)@),
            forall|j: int| 0 <= j < blocks@.len() ==> interior(#[trigger] blocks@[j]),
        ensures
            full(final(level)@, final(front)@),
            forall|p: Pos| #[trigger]
                final(level)@.contains_key(p) <==> old(level)@.contains_key(p) || (is_dust(
                    block_at(self.grid@, p),
                ) && near(blocks@, blocks@.len() as int, p)),
    {
        for i in 0..blocks.len()
            invariant
                forall|j: int| 0 <= j < blocks@.len() ==> interior(#[trigger] blocks@[j]),
                full(level@, front@),
                forall|p: Pos| #[trigger]
                    level@.contains_key(p) <==> old(level)@.contains_key(p) || (is_dust(
                        block_at(self.grid@, p),
                    ) && near(blocks@, i as int, p)),
        {
            let b: Pos = blocks[i];
            let ghost before = level@;
            let ps = touching(b);
            self.seed(level, front, &ps);
            proof {
                assert forall|p: Pos| #[trigger] level@.contains_key(p) <==> old(level)@.contains_key(p)
                    || (is_dust(block_at(self.grid@, p)) && near(blocks@, i + 1, p)) by {
                    lemma_near(blocks@, i as int, p);
                    assert(before.contains_key(p) <==> old(level)@.contains_key(p) || (is_dust(
                        block_at(self.grid@, p),
                    ) && near(blocks@, i as int, p)));
                }
            }
        }
    }

    /// Give every dust that the dust at `p` conducts into a level, if it has none yet.
    fn flow(
        &self,
        level: &mut PosMap<u8>,
        all: &mut Vec<Pos>,
        next: &mut Vec<Pos>,
        p: Pos,
        v: u8,
    )
        requires
            self.wf(),
            is_dust(block_at(self.grid@, p)),
            forall|n: Pos| #[trigger] old(all)@.contains(n) <==> old(level)@.contains_key(n),
        ensures
            forall|n: Pos| #[trigger] final(all)@.contains(n) <==> final(level)@.contains_key(n),
            forall|n: Pos| #[trigger]
                final(level)@.contains_key(n) <==> old(level)@.contains_key(n) || conducts_into(
                    self.grid@,
                    p,
                    n,
                ),
            forall|n: Pos| #[trigger]
                final(level)@.contains_key(n) ==> final(level)@[n] == if old(level)@.contains_key(n) {
                    old(level)@[n]
                } else {
                    v
                },
            forall|n: Pos| #[trigger]
                final(next)@.contains(n) <==> old(next)@.contains(n) || (final(level)@.contains_key(n)
                    && !old(level)@.contains_key(n)),
    {
        match self.parts.wires.get(p) {
            Some(w) => {
                let ghost flows = w.flows@;
                for i in 0..w.flows.len()
                    invariant
                        flows == w.flows@,
                        forall|n: Pos| #[trigger] all@.contains(n) <==> level@.contains_key(n),
                        forall|n: Pos| #[trigger]
                            level@.contains_key(n) <==> old(level)@.contains_key(n) || flows.take(
                                i as int,
                            ).contains(n),
                        forall|n: Pos| #[trigger]
                            level@.contains_key(n) ==> level@[n] == if old(level)@.contains_key(n) {
                                old(level)@[n]
                            } else {
                                v
                            },
                        forall|n: Pos| #[trigger]
                            next@.contains(n) <==> old(next)@.contains(n) || (level@.contains_key(n)
                                && !old(level)@.contains_key(n)),
                {
                    let n: Pos = w.flows[i];
                    proof {
                        assert(flows.take(i + 1) =~= flows.take(i as int).push(n));
                        lemma_contains_push(flows.take(i as int), n);
                        lemma_contains_push(all@, n);
                        lemma_contains_push(next@, n);
                    }
                    if !level.contains(n) {
                        level.insert(n, v);
                        all.push(n);
                        next.push(n);
                    }
                }
                proof {
                    assert(flows.take(flows.len() as int) =~= flows);
                    assert(leads(*w, self.grid@, p));
                    assert forall|n: Pos| #[trigger] level@.contains_key(n) <==> old(level)@.contains_key(n)
                        || conducts_into(self.grid@, p, n) by {
                        assert(w.flows@.contains(n) <==> conducts_into(self.grid@, p, n));
                    }
                }
            },
            None => {},
        }
    }

    /// Relax outward from the driven dust, one level less per link. Returns the
    /// dust that has power.
    fn relax(&self, level: &mut PosMap<u8>, seeds: Vec<Pos>) -> (all: Vec<Pos>)
        requires
            self.wf(),
            full(old(level)@, seeds@),
            forall|p: Pos| #[trigger]
                old(level)@.contains_key(p) <==> seeded(self.grid@, self.state@, p),
        ensures
            forall|p: Pos| #[trigger]
                final(level)@.contains_key(p) <==> dust_level(self.grid@, self.state@, p) > 0,
            forall|p: Pos| #[trigger]
                final(level)@.contains_key(p) ==> final(level)@[p] == dust_level(
                    self.grid@,
                    self.state@,
                    p,
                ),
            forall|p: Pos| #[trigger] all@.contains(p) <==> final(level)@.contains_key(p),
    {
        let ghost cells = self.grid@;
        let ghost c = self.state@;
        let mut all: Vec<Pos> = copied(&seeds);
        let mut front: Vec<Pos> = seeds;
        proof {
            assert forall|p: Pos| #[trigger] level@.contains_key(p) implies level@[p] == dust_level(
                cells,
                c,
                p,
            ) by {
                lemma_first_reached(cells, c, p, 0);
            }
            assert forall|p: Pos| #[trigger] front@.contains(p) <==> reached(cells, c, p, 0) by {
                assert(level@.contains_key(p) <==> front@.contains(p));
            }
        }
        for k in 0..14u8
            invariant
                cells == self.grid@,
                c == self.state@,
                self.wf(),
                forall|p: Pos| #[trigger] level@.contains_key(p) <==> reached(cells, c, p, k as nat),
                forall|p: Pos| #[trigger]
                    level@.contains_key(p) ==> level@[p] == dust_level(cells, c, p),
                forall|p: Pos| #[trigger]
                    front@.contains(p) <==> reached(cells, c, p, k as nat) && (k == 0 || !reached(
                        cells,
                        c,
                        p,
                        (k - 1) as nat,
                    )),
                forall|p: Pos| #[trigger] all@.contains(p) <==> level@.contains_key(p),
        {
            let mut next: Vec<Pos> = Vec::new();
            let ghost before = level@;
            for i in 0..front.len()
                invariant
                    cells == self.grid@,
                    c == self.state@,
                    self.wf(),
                    k < 14,
                    forall|p: Pos| #[trigger] before.contains_key(p) <==> reached(cells, c, p, k as nat),
                    forall|p: Pos| #[trigger]
                        front@.contains(p) <==> reached(cells, c, p, k as nat) && (k == 0 || !reached(
                            cells,
                            c,
                            p,
                            (k - 1) as nat,
                        )),
                    forall|p: Pos| #[trigger] all@.contains(p) <==> level@.contains_key(p),
                    forall|p: Pos| #[trigger]
                        level@.contains_key(p) <==> before.contains_key(p) || fed(
                            cells,
                            front@,
                            i as int,
                            p,
                        ),
                    forall|p: Pos| #[trigger]
                        level@.contains_key(p) ==> level@[p] == if before.contains_key(p) {
                            before[p]
                        } else {
                            (14 - k) as u8
                        },
                    forall|p: Pos| #[trigger]
                        next@.contains(p) <==> level@.contains_key(p) && !before.contains_key(p),
            {
                let p: Pos = front[i];
                let ghost had = level@;
                let ghost had_next = next@;
                proof {
                    assert(front@.contains(p));
                    lemma_reached_dust(cells, c, p, k as nat);
                }
                self.flow(level, &mut all, &mut next, p, 14 - k);
                proof {
                    assert forall|n: Pos| #[trigger] level@.contains_key(n) <==> before.contains_key(n)
                        || fed(cells, front@, i + 1, n) by {
                        lemma_fed(cells, front@, i as int, n);
                        assert(had.contains_key(n) <==> before.contains_key(n) || fed(
                            cells,
                            front@,
                            i as int,
                            n,
                        ));
                    }
                    assert forall|n: Pos| #[trigger] level@.contains_key(n) implies level@[n]
                        == if before.contains_key(n) {
                        before[n]
                    } else {
                        (14 - k) as u8
                    } by {
                        if had.contains_key(n) {
                        }
                    }
                    assert forall|n: Pos| #[trigger] next@.contains(n) <==> level@.contains_key(n)
                        && !before.contains_key(n) by {
                        assert(had_next.contains(n) <==> had.contains_key(n) && !before.contains_key(
                            n,
                        ));
                        assert(before.contains_key(n) ==> had.contains_key(n));
                        assert(had.contains_key(n) ==> level@.contains_key(n));
                    }
                }
            }
            proof {
                assert forall|p: Pos| #[trigger] level@.contains_key(p) <==> reached(
                    cells,
                    c,
                    p,
                    (k + 1) as nat,
                ) by {
                    lemma_next_front(cells, c, front@, p, k as nat);
                    assert(before.contains_key(p) <==> reached(cells, c, p, k as nat));
                }
                assert forall|p: Pos| #[trigger] level@.contains_key(p) implies level@[p]
                    == dust_level(cells, c, p) by {
                    if !before.contains_key(p) {
                        lemma_first_reached(cells, c, p, (k + 1) as nat);
                    }
                }
            }
            front = next;
        }
        proof {
            assert forall|p: Pos| #[trigger] level@.contains_key(p) <==> dust_level(cells, c, p) > 0 by {
                lemma_level_positive(cells, c, p, 0);
            }
        }
        all
    }

    /// Mark the blocks that the dust in `lit` powers.
    fn mark_weak(&self, lit: &Vec<Pos>) -> (weak: PosMap<bool>)
        requires
            self.wf(),
            forall|j: int| 0 <= j < lit@.len() ==> is_dust(block_at(self.grid@, #[trigger] lit@[j])),
        ensures
            forall|p: Pos| #[trigger]
                on(weak@, p) <==> opaque_block(block_at(self.grid@, p)) && weak_by(
                    self.grid@,
                    lit@,
                    lit@.len() as int,
                    p,
                ),
    {
        let mut weak: PosMap<bool> = PosMap::new();
        for i in 0..lit.len()
            invariant
                self.wf(),
                forall|j: int| 0 <= j < lit@.len() ==> is_dust(block_at(self.grid@, #[trigger] lit@[j])),
                forall|p: Pos| #[trigger]
                    on(weak@, p) <==> opaque_block(block_at(self.grid@, p)) && weak_by(
                        self.grid@,
                        lit@,
                        i as int,
                        p,
                    ),
        {
            let q: Pos = lit[i];
            assert(is_dust(block_at(self.grid@, lit@[i as int])));
            let ghost before = weak@;
            match self.parts.wires.get(q) {
                Some(w) => {
                    assert(leads(*w, self.grid@, q));
                    let ghost all = w.powers@;
                    for j in 0..w.powers.len()
                        invariant
                            all == w.powers@,
                            forall|p: Pos| #[trigger]
                                on(weak@, p) <==> on(before, p) || (opaque_block(
                                    block_at(self.grid@, p),
                                ) && all.take(j as int).contains(p)),
                    {
                        let p: Pos = w.powers[j];
                        proof {
                            assert(all.take(j + 1) =~= all.take(j as int).push(p));
                            lemma_contains_push(all.take(j as int), p);
                        }
                        let ghost had = weak@;
                        if self.grid.get(p).is_opaque() {
                            weak.insert(p, true);
                        }
                        assert forall|x: Pos| #[trigger] on(weak@, x) <==> on(before, x) || (opaque_block(
                            block_at(self.grid@, x),
                        ) && all.take(j + 1).contains(x)) by {
                            assert(on(had, x) <==> on(before, x) || (opaque_block(
                                block_at(self.grid@, x),
                            ) && all.take(j as int).contains(x)));
                        }
                    }
                    assert(all.take(all.len() as int) =~= all);
                },
                None => {},
            }
            proof {
                assert forall|p: Pos| #[trigger] on(weak@, p) <==> opaque_block(block_at(self.grid@, p))
                    && weak_by(self.grid@, lit@, i + 1, p) by {
                    lemma_weak_by(self.grid@, lit@, i as int, p);
                    assert(on(before, p) <==> opaque_block(block_at(self.grid@, p)) && weak_by(
                        self.grid@,
                        lit@,
                        i as int,
                        p,
                    ));
                    assert(self.parts.wires@[q].powers@.contains(p) <==> powers(self.grid@, q, p));
                }
            }
        }
        weak
    }

    /// Compute the combinational field from the current component states.
    pub fn field(&self) -> (f: Field)
        requires
            self.wf(),
        ensures
            f.shows(self.grid@, self.state@),
            forall|p: Pos| #[trigger] f.dust@.contains_key(p) <==> f.level(p) > 0,
    {
        let ghost cells = self.grid@;
        let ghost c = self.state@;
        let parts = &self.parts;
        let mut strong: PosMap<bool> = PosMap::new();
        let mut blocks: Vec<Pos> = Vec::new();
        proof {
            self.lemma_listed();
        }
        // --- Strong power from active components ------------------------------
        self.mark_strong(&parts.torches, &mut strong, &mut blocks);
        self.mark_strong(&parts.repeaters, &mut strong, &mut blocks);
        self.mark_strong(&parts.levers, &mut strong, &mut blocks);
        proof {
            assert forall|p: Pos| #[trigger] on(strong@, p) <==> self::strong(cells, c, p) by {
                self.lemma_strong(p);
            }
            assert forall|j: int| 0 <= j < blocks@.len() implies interior(#[trigger] blocks@[j]) by {
                assert(blocks@.contains(blocks@[j]));
                assert(self::strong(cells, c, blocks@[j]));
                assert(cells.contains_key(blocks@[j]));
            }
        }
        // --- Dust levels ------------------------------------------------------
        let mut dust: PosMap<u8> = PosMap::new();
        let mut seeds: Vec<Pos> = Vec::new();
        self.seed_ends(&mut dust, &mut seeds, &parts.torches);
        self.seed_ends(&mut dust, &mut seeds, &parts.repeaters);
        self.seed_ends(&mut dust, &mut seeds, &parts.levers);
        // Strongly powered blocks energise all adjacent dust to 15.
        self.seed_around(&mut dust, &mut seeds, &blocks);
        proof {
            assert forall|p: Pos| #[trigger] dust@.contains_key(p) <==> seeded(cells, c, p) by {
                self.lemma_seeded(blocks@, p);
            }
        }
        let lit = self.relax(&mut dust, seeds);
        proof {
            assert forall|j: int| 0 <= j < lit@.len() implies is_dust(
                block_at(cells, #[trigger] lit@[j]),
            ) by {
                assert(lit@.contains(lit@[j]));
                assert(dust@.contains_key(lit@[j]));
                lemma_level_positive(cells, c, lit@[j], 0);
                lemma_reached_dust(cells, c, lit@[j], 14);
            }
        }
        // --- Weak power from dust --------------------------------------------
        let weak = self.mark_weak(&lit);
        let f = Field { dust, blocks: BlockPower { strong, weak } };
        proof {
            assert forall|p: Pos| #[trigger] f.weakly(p) == self::weak(cells, c, p) by {
                self.lemma_weak(lit@, p);
            }
        }
        f
    }

    proof fn lemma_listed(&self)
        requires
            self.wf(),
        ensures
            forall|j: int| 0 <= j < self.parts.torches@.len() ==> interior(#[trigger] self.parts.torches@[j]),
            forall|j: int| 0 <= j < self.parts.repeaters@.len() ==> interior(#[trigger] self.parts.repeaters@[j]),
            forall|j: int| 0 <= j < self.parts.levers@.len() ==> interior(#[trigger] self.parts.levers@[j]),
    {
        let ps = self.parts;
        assert forall|j: int| 0 <= j < ps.torches@.len() implies interior(#[trigger] ps.torches@[j]) by {
            assert(ps.torches@.contains(ps.torches@[j]));
            assert(self.grid@.contains_key(ps.torches@[j]));
        }
        assert forall|j: int| 0 <= j < ps.repeaters@.len() implies interior(#[trigger] ps.repeaters@[j]) by {
            assert(ps.repeaters@.contains(ps.repeaters@[j]));
            assert(self.grid@.contains_key(ps.repeaters@[j]));
        }
        assert forall|j: int| 0 <= j < ps.levers@.len() implies interior(#[trigger] ps.levers@[j]) by {
            assert(ps.levers@.contains(ps.levers@[j]));
            assert(self.grid@.contains_key(ps.levers@[j]));
        }
    }

    /// Every active component is listed.
    proof fn lemma_active_listed(&self, q: Pos)
        requires
            self.wf(),
            active(self.grid@, self.state@, q),
        ensures
            self.parts.torches@.contains(q) || self.parts.repeaters@.contains(q) || self.parts.levers@.contains(q),
    {
    }

    proof fn lemma_strong(&self, p: Pos)
        requires
            self.wf(),
        ensures
            strong(self.grid@, self.state@, p) <==> {
                ||| strong_by(self.grid@, self.state@, self.parts.torches@, self.parts.torches@.len() as int, p)
                ||| strong_by(self.grid@, self.state@, self.parts.repeaters@, self.parts.repeaters@.len() as int, p)
                ||| strong_by(self.grid@, self.state@, self.parts.levers@, self.parts.levers@.len() as int, p)
            },
    {
        let (cells, c, ps) = (self.grid@, self.state@, self.parts);
        if strong(cells, c, p) {
            let q = choose|q: Pos| #[trigger] active(cells, c, q) && target_of(block_at(cells, q), q) == p;
            self.lemma_active_listed(q);
            if ps.torches@.contains(q) {
                let j = choose|j: int| 0 <= j < ps.torches@.len() && ps.torches@[j] == q;
                assert(active(cells, c, ps.torches@[j]));
            } else if ps.repeaters@.contains(q) {
                let j = choose|j: int| 0 <= j < ps.repeaters@.len() && ps.repeaters@[j] == q;
                assert(active(cells, c, ps.repeaters@[j]));
            } else {
                let j = choose|j: int| 0 <= j < ps.levers@.len() && ps.levers@[j] == q;
                assert(active(cells, c, ps.levers@[j]));
            }
        }
    }

    proof fn lemma_seeded(&self, blocks: Seq<Pos>, p: Pos)
        requires
            self.wf(),
            forall|b: Pos| #[trigger] blocks.contains(b) <==> strong(self.grid@, self.state@, b),
        ensures
            seeded(self.grid@, self.state@, p) <==> is_dust(block_at(self.grid@, p)) && {
                ||| driven_by(self.grid@, self.state@, self.parts.torches@, self.parts.torches@.len() as int, p)
                ||| driven_by(self.grid@, self.state@, self.parts.repeaters@, self.parts.repeaters@.len() as int, p)
                ||| driven_by(self.grid@, self.state@, self.parts.levers@, self.parts.levers@.len() as int, p)
                ||| near(blocks, blocks.len() as int, p)
            },
    {
        let (cells, c, ps) = (self.grid@, self.state@, self.parts);
        if exists|q: Pos| #[trigger] active(cells, c, q) && ends_of(block_at(cells, q), q).contains(p) {
            let q = choose|q: Pos| #[trigger] active(cells, c, q) && ends_of(block_at(cells, q), q).contains(p);
            self.lemma_active_listed(q);
            if ps.torches@.contains(q) {
                let j = choose|j: int| 0 <= j < ps.torches@.len() && ps.torches@[j] == q;
                assert(active(cells, c, ps.torches@[j]));
            } else if ps.repeaters@.contains(q) {
                let j = choose|j: int| 0 <= j < ps.repeaters@.len() && ps.repeaters@[j] == q;
                assert(active(cells, c, ps.repeaters@[j]));
            } else {
                let j = choose|j: int| 0 <= j < ps.levers@.len() && ps.levers@[j] == q;
                assert(active(cells, c, ps.levers@[j]));
            }
        }
        if exists|b: Pos| #[trigger] strong(cells, c, b) && around(b).contains(p) {
            let b = choose|b: Pos| #[trigger] strong(cells, c, b) && around(b).contains(p);
            assert(blocks.contains(b));
            let j = choose|j: int| 0 <= j < blocks.len() && blocks[j] == b;
            assert(around(blocks[j]).contains(p));
        }
        if near(blocks, blocks.len() as int, p) {
            let j = choose|j: int| 0 <= j < blocks.len() && around(#[trigger] blocks[j]).contains(p);
            assert(blocks.contains(blocks[j]));
            assert(strong(cells, c, blocks[j]));
        }
    }

    proof fn lemma_weak(&self, lit: Seq<Pos>, p: Pos)
        requires
            forall|q: Pos| #[trigger] lit.contains(q) <==> dust_level(self.grid@, self.state@, q) > 0,
        ensures
            weak(self.grid@, self.state@, p) <==> opaque_block(block_at(self.grid@, p)) && weak_by(
                self.grid@,
                lit,
                lit.len() as int,
                p,
            ),
    {
        let (cells, c) = (self.grid@, self.state@);
        if weak(cells, c, p) {
            let q = choose|q: Pos| #[trigger] dust_level(cells, c, q) > 0 && powers(cells, q, p);
            assert(lit.contains(q));
            let j = choose|j: int| 0 <= j < lit.len() && lit[j] == q;
            assert(powers(cells, lit[j], p));
        }
        if weak_by(cells, lit, lit.len() as int, p) {
            let j = choose|j: int| 0 <= j < lit.len() && powers(cells, #[trigger] lit[j], p);
            assert(lit.contains(lit[j]));
            assert(dust_level(cells, c, lit[j]) > 0);
        }
    }

    /// Is there an active signal entering the repeater at `rp` from its input side?
    fn repeater_input(&self, rp: Pos, facing: Dir, f: &Field) -> (r: bool)
        requires
            self.wf(),
            interior(rp),
            f.shows(self.grid@, self.state@),
        ensures
            r == repeater_reads(self.grid@, self.state@, rp, facing),
    {
        let src = offset(rp, facing);
        match self.grid.get(src) {
            Block::Dust { .. } => f.dust_at(src) > 0,
            Block::WallTorch { .. } => is_on(&self.state.torch_lit, src),
            Block::Torch { .. } => is_on(&self.state.torch_lit, src),
            Block::Lever { .. } => is_on(&self.state.lever_on, src),
            Block::Repeater { facing: f2, .. } => {
                assert(self.grid@.contains_key(src));
                // Only if that repeater's output points at us.
                let out = offset(src, f2.opposite());
                out.0 == rp.0 && out.1 == rp.1 && out.2 == rp.2 && is_on(
                    &self.state.repeater_powered,
                    src,
                )
            },
            // Repeaters read both strong and weak power from a solid block.
            Block::Solid(_) => f.block_powered(src),
            _ => false,
        }
    }

    /// Let the transition of `p` take place, if it is due.
    fn fire_one(&mut self, p: Pos, now: u64, Ghost(c): Ghost<Circuit>, Ghost(done): Ghost<Set<Pos>>)
        requires
            old(self).wf(),
            old(self).state@ == fired_in(old(self).grid@, c, now, done),
            !done.contains(p),
        ensures
            final(self).wf(),
            final(self).grid == old(self).grid,
            final(self).parts == old(self).parts,
            final(self).state@ == fired_in(old(self).grid@, c, now, done.insert(p)),
    {
        let ghost cells = self.grid@;
        let ghost goal = fired_in(cells, c, now, done.insert(p));
        let (t, v) = match self.state.history.pending.get(p) {
            Some(x) => *x,
            None => {
                proof {
                    assert(!due(c, p, now));
                    lemma_same_circuit(self.state@, goal);
                }
                return;
            },
        };
        if t > now {
            proof {
                assert(!due(c, p, now));
                lemma_same_circuit(self.state@, goal);
            }
            return;
        }
        assert(due(c, p, now) && c.pending[p] == (t, v));
        self.state.history.pending.remove(p);
        let b = self.grid.get(p);
        match b {
            Block::WallTorch { .. } => {
                self.toggle(p, v, now);
                assert(is_torch(b));
            },
            Block::Torch { .. } => {
                self.toggle(p, v, now);
                assert(is_torch(b));
            },
            Block::Repeater { .. } => {
                self.state.repeater_powered.insert(p, v);
            },
            _ => {},
        }
        proof {
            lemma_same_circuit(self.state@, goal);
        }
    }

    /// The torch at `p` changes to `v`.
    fn toggle(&mut self, p: Pos, v: bool, now: u64)
        requires
            old(self).wf(),
        ensures
            final(self).wf(),
            final(self).grid == old(self).grid,
            final(self).parts == old(self).parts,
            final(self).state@ == (Circuit {
                torch_lit: old(self).state@.torch_lit.insert(p, v),
                toggles: old(self).state@.toggles.insert(p, toggled(old(self).state@, p, now)),
                ..old(self).state@
            }),
    {
        self.state.torch_lit.insert(p, v);
        let hist = match self.state.history.torch_toggles.get(p) {
            Some(h) => recent_toggles(h, now),
            None => {
                let none: Vec<u64> = Vec::new();
                assert(none@ =~= Seq::empty());
                recent_toggles(&none, now)
            },
        };
        assert(hist@ == toggled(old(self).state@, p, now));
        self.state.history.torch_toggles.insert(p, hist);
        assert(self.state@.toggles =~= old(self).state@.toggles.insert(
            p,
            toggled(old(self).state@, p, now),
        ));
    }

    /// Fire everything scheduled for tick `now`.
    fn fire(&mut self, now: u64)
        requires
            old(self).wf(),
            old(self).state@.tick == now,
        ensures
            final(self).wf(),
            final(self).grid == old(self).grid,
            final(self).parts == old(self).parts,
            final(self).state@ == fired(old(self).grid@, old(self).state@, now),
    {
        let ghost c = self.state@;
        let ghost cells = self.grid@;
        let ps = self.state.history.pending.positions();
        let ghost mut done: Set<Pos> = Set::empty();
        proof {
            lemma_same_circuit(c, fired_in(cells, c, now, done));
        }
        for i in 0..ps.len()
            invariant
                self.wf(),
                self.grid == old(self).grid,
                self.parts == old(self).parts,
                cells == self.grid@,
                self.state@ == fired_in(cells, c, now, done),
                ps@.no_duplicates(),
                forall|j: int| 0 <= j < i ==> done.contains(#[trigger] ps@[j]),
                forall|p: Pos| #[trigger]
                    done.contains(p) ==> exists|j: int| 0 <= j < i && #[trigger] ps@[j] == p,
        {
            let p: Pos = ps[i];
            assert(!done.contains(p)) by {
                if done.contains(p) {
                    let j = choose|j: int| 0 <= j < i && #[trigger] ps@[j] == p;
                    assert(ps@[j] != ps@[i as int]);
                }
            }
            self.fire_one(p, now, Ghost(c), Ghost(done));
            proof {
                done = done.insert(p);
            }
        }
        proof {
            assert forall|p: Pos| #[trigger] due(c, p, now) implies done.contains(p) by {
                assert(ps@.contains(p));
                let j = choose|j: int| 0 <= j < ps@.len() && ps@[j] == p;
                assert(done.contains(ps@[j]));
            }
            lemma_same_circuit(fired_in(cells, c, now, done), fired(cells, c, now));
        }
    }

    fn schedule(&mut self, p: Pos, target: bool, current: bool, delay: u64)
        requires
            old(self).wf(),
            old(self).state@.tick + delay <= u64::MAX,
        ensures
            final(self).wf(),
            final(self).grid == old(self).grid,
            final(self).parts == old(self).parts,
            final(self).state@ == (Circuit {
                pending: match rescheduled(old(self).state@, p, target, current, delay) {
                    Some(x) => old(self).state@.pending.insert(p, x),
                    None => old(self).state@.pending.remove(p),
                },
                ..old(self).state@
            }),
    {
        let now: u64 = self.state.tick;
        if target == current {
            // The input went back to where it was before the change landed.
            self.state.history.pending.remove(p);
        } else {
            let on_its_way = match self.state.history.pending.get(p) {
                Some(x) => x.1 == target,
                None => false,
            };
            if on_its_way {
                assert(self.state@.pending =~= self.state@.pending.insert(p, self.state@.pending[p]));
            } else {
                self.state.history.pending.insert(p, (now + delay, target));
            }
        }
    }

    /// Let the torch at `p` look at its support.
    fn evaluate_torch(&mut self, p: Pos, f: &Field, Ghost(c): Ghost<Circuit>, Ghost(done): Ghost<Set<Pos>>)
        requires
            old(self).wf(),
            old(self).state@ == evaluated_in(old(self).grid@, c, done),
            covers(old(self).grid@, c),
            f.shows(old(self).grid@, c),
            is_torch(block_at(old(self).grid@, p)),
            !done.contains(p),
            c.tick + 255 <= u64::MAX,
        ensures
            final(self).wf(),
            final(self).grid == old(self).grid,
            final(self).parts == old(self).parts,
            final(self).state@ == evaluated_in(old(self).grid@, c, done.insert(p)),
    {
        let ghost cells = self.grid@;
        let ghost goal = evaluated_in(cells, c, done.insert(p));
        let now: u64 = self.state.tick;
        assert(self.grid@.contains_key(p));
        // A torch driven past the burnout rate goes out and stays out. This
        // is what stops a pulse circulating forever round a non-inverting
        // loop in the real game.
        let burned = match self.state.history.torch_toggles.get(p) {
            Some(h) => recent_count(h, now) >= BURNOUT_TOGGLES,
            None => false,
        };
        assert(burned == self::burned(c, p, c.tick));
        let ghost before = self.state@;
        if burned {
            self.state.torch_lit.insert(p, false);
            self.state.history.pending.remove(p);
        } else {
            let support = self.torch_support(p);
            let target = !f.block_powered(support);
            let current = is_on(&self.state.torch_lit, p);
            assert(f.strongly(support) == strong(cells, c, support));
            assert(f.weakly(support) == weak(cells, c, support));
            assert(target == !powered(cells, c, support_of(block_at(cells, p), p)));
            assert(current == on(c.torch_lit, p));
            self.schedule(p, target, current, 1);
            assert(rescheduled(before, p, target, current, 1) == rescheduled(c, p, target, current, 1));
        }
        proof {
            lemma_same_circuit(self.state@, goal);
        }
    }

    /// Let the repeater at `p` look at its input.
    fn evaluate_repeater(&mut self, p: Pos, target: bool, Ghost(c): Ghost<Circuit>, Ghost(done): Ghost<Set<Pos>>)
        requires
            old(self).wf(),
            old(self).state@ == evaluated_in(old(self).grid@, c, done),
            block_at(old(self).grid@, p) is Repeater,
            target == repeater_reads(old(self).grid@, c, p, block_at(old(self).grid@, p)->Repeater_facing),
            !done.contains(p),
            c.tick + 255 <= u64::MAX,
        ensures
            final(self).wf(),
            final(self).grid == old(self).grid,
            final(self).parts == old(self).parts,
            final(self).state@ == evaluated_in(old(self).grid@, c, done.insert(p)),
    {
        let ghost cells = self.grid@;
        let ghost goal = evaluated_in(cells, c, done.insert(p));
        let delay: u64 = match self.grid.get(p) {
            Block::Repeater { delay, .. } => if delay < 1 {
                1
            } else {
                delay as u64
            },
            _ => 1,
        };
        let ghost before = self.state@;
        let current = is_on(&self.state.repeater_powered, p);
        self.schedule(p, target, current, delay);
        assert(rescheduled(before, p, target, current, delay) == rescheduled(c, p, target, current, delay));
        proof {
            lemma_same_circuit(self.state@, goal);
        }
    }

    /// Re-evaluate every active component against the field.
    fn evaluate(&mut self)
        requires
            old(self).wf(),
            covers(old(self).grid@, old(self).state@),
            old(self).state@.tick + 255 <= u64::MAX,
        ensures
            final(self).wf(),
            final(self).grid == old(self).grid,
            final(self).state@ == evaluated(old(self).grid@, old(self).state@),
    {
        let ghost c = self.state@;
        let ghost cells = self.grid@;
        let f = self.field();
        // What the repeaters read is fixed before any torch goes out.
        let inputs = self.repeater_inputs(&f);
        let ghost mut done: Set<Pos> = Set::empty();
        proof {
            lemma_same_circuit(c, evaluated_in(cells, c, done));
        }
        let n: usize = self.parts.torches.len();
        for i in 0..n
            invariant
                self.wf(),
                self.grid == old(self).grid,
                self.parts == old(self).parts,
                cells == self.grid@,
                covers(cells, c),
                f.shows(cells, c),
                n == self.parts.torches@.len(),
                c.tick + 255 <= u64::MAX,
                self.state@ == evaluated_in(cells, c, done),
                forall|p: Pos| #[trigger]
                    done.contains(p) <==> exists|j: int| 0 <= j < i && #[trigger] self.parts.torches@[j] == p,
        {
            let p: Pos = self.parts.torches[i];
            assert(self.parts.torches@.contains(p));
            assert(!done.contains(p));
            self.evaluate_torch(p, &f, Ghost(c), Ghost(done));
            proof {
                done = done.insert(p);
            }
        }
        let ghost torches = done;
        proof {
            assert forall|p: Pos| #[trigger] torches.contains(p) <==> is_torch(block_at(cells, p)) by {
                if is_torch(block_at(cells, p)) {
                    assert(self.parts.torches@.contains(p));
                    let j = choose|j: int| 0 <= j < self.parts.torches@.len() && self.parts.torches@[j] == p;
                }
                if torches.contains(p) {
                    let j = choose|j: int| 0 <= j < n && #[trigger] self.parts.torches@[j] == p;
                    assert(self.parts.torches@.contains(p));
                }
            }
        }
        let m: usize = self.parts.repeaters.len();
        for i in 0..m
            invariant
                self.wf(),
                self.grid == old(self).grid,
                self.parts == old(self).parts,
                cells == self.grid@,
                m == self.parts.repeaters@.len(),
                inputs@.len() == m,
                forall|j: int|
                    0 <= j < m ==> #[trigger] inputs@[j] == reads_at(cells, c, self.parts.repeaters@[j]),
                c.tick + 255 <= u64::MAX,
                self.state@ == evaluated_in(cells, c, done),
                forall|p: Pos| #[trigger] torches.contains(p) <==> is_torch(block_at(cells, p)),
                forall|p: Pos| #[trigger]
                    done.contains(p) <==> torches.contains(p) || exists|j: int|
                        0 <= j < i && #[trigger] self.parts.repeaters@[j] == p,
        {
            let p: Pos = self.parts.repeaters[i];
            assert(self.parts.repeaters@.contains(p));
            assert(!done.contains(p));
            assert(inputs@[i as int] == reads_at(cells, c, p));
            self.evaluate_repeater(p, inputs[i], Ghost(c), Ghost(done));
            proof {
                done = done.insert(p);
            }
        }
        proof {
            assert forall|p: Pos| block_at(cells, p) is Repeater implies #[trigger] done.contains(p) by {
                assert(self.parts.repeaters@.contains(p));
                let j = choose|j: int| 0 <= j < self.parts.repeaters@.len() && self.parts.repeaters@[j] == p;
            }
            assert forall|p: Pos| !(#[trigger] done.contains(p)) implies next_pending(cells, c, p)
                == if c.pending.contains_key(p) {
                Some(c.pending[p])
            } else {
                None
            } by {
                assert(!torches.contains(p));
            }
            lemma_same_circuit(self.state@, evaluated(cells, c));
        }
    }

    /// What each repeater reads.
    fn repeater_inputs(&self, f: &Field) -> (r: Vec<bool>)
        requires
            self.wf(),
            f.shows(self.grid@, self.state@),
        ensures
            r@.len() == self.parts.repeaters@.len(),
            forall|j: int|
                0 <= j < r@.len() ==> #[trigger] r@[j] == reads_at(
                    self.grid@,
                    self.state@,
                    self.parts.repeaters@[j],
                ),
    {
        let mut r: Vec<bool> = Vec::new();
        let n: usize = self.parts.repeaters.len();
        for i in 0..n
            invariant
                self.wf(),
                f.shows(self.grid@, self.state@),
                n == self.parts.repeaters@.len(),
                r@.len() == i,
                forall|j: int|
                    0 <= j < i ==> #[trigger] r@[j] == reads_at(
                        self.grid@,
                        self.state@,
                        self.parts.repeaters@[j],
                    ),
        {
            let p: Pos = self.parts.repeaters[i];
            assert(self.parts.repeaters@.contains(p));
            assert(self.grid@.contains_key(p));
            let input = match self.grid.get(p) {
                Block::Repeater { facing, .. } => self.repeater_input(p, facing, f),
                _ => false,
            };
            r.push(input);
        }
        r
    }

    /// Advance one redstone tick.
    pub fn step(&mut self)
        requires
            old(self).wf(),
            covers(old(self).grid@, old(self).state@),
            old(self).state@.tick + 256 <= u64::MAX,
        ensures
            final(self).wf(),
            final(self).grid == old(self).grid,
            covers(final(self).grid@, final(self).state@),
            final(self).state@ == ticked(old(self).grid@, old(self).state@),
    {
        let ghost c = self.state@;
        let ghost cells = self.grid@;
        let now: u64 = self.state.tick + 1;
        self.state.tick = now;
        self.fire(now);
        proof {
            let moved = Circuit { tick: now, ..c };
            lemma_same_circuit(fired(cells, moved, now), fired(cells, c, now));
            lemma_covers(cells, c);
        }
        self.evaluate();
    }

    /// Torches that have burned out: driven past [`BURNOUT_TOGGLES`] inside
    /// [`BURNOUT_WINDOW`] and now off until the window has passed. A burned-out
    /// torch in a settled circuit is a fault, not a transient.
    pub fn burned_out(&self) -> (r: Vec<Pos>)
        ensures
            by_axes(r@),
            forall|p: Pos| #[trigger] r@.contains(p) <==> burned(self.state@, p, self.state@.tick),
    {
        let ps = self.state.history.torch_toggles.positions();
        let mut v: Vec<Pos> = Vec::new();
        for i in 0..ps.len()
            invariant
                forall|p: Pos| #[trigger] self.state.history.torch_toggles@.contains_key(p) <==> ps@.contains(p),
                forall|p: Pos| #[trigger]
                    v@.contains(p) <==> ps@.take(i as int).contains(p) && burned(
                        self.state@,
                        p,
                        self.state@.tick,
                    ),
        {
            let p: Pos = ps[i];
            proof {
                assert(ps@.contains(p));
                assert(ps@.take(i + 1) =~= ps@.take(i as int).push(p));
                lemma_contains_push(ps@.take(i as int), p);
                lemma_contains_push(v@, p);
            }
            let burned = match self.state.history.torch_toggles.get(p) {
                Some(h) => recent_count(h, self.state.tick) >= BURNOUT_TOGGLES,
                None => false,
            };
            if burned {
                v.push(p);
            }
        }
        assert(ps@.take(ps@.len() as int) =~= ps@);
        let r = sort_by_axes(&v);
        proof {
            assert forall|p: Pos| #[trigger] r@.contains(p) <==> burned(self.state@, p, self.state@.tick) by {
                assert(v@.contains(p) <==> r@.contains(p));
                assert(self.state.history.torch_toggles@.contains_key(p) <==> ps@.contains(p));
            }
        }
        r
    }

    /// Run until no transitions are pending, or `limit` ticks elapse.
    /// Returns the number of ticks actually run and whether it settled.
    pub fn run_until_stable(&mut self, limit: u64) -> (r: (u64, bool))
        requires
            old(self).wf(),
            covers(old(self).grid@, old(self).state@),
            old(self).state@.tick + limit + 256 <= u64::MAX,
        ensures
            final(self).wf(),
            final(self).grid == old(self).grid,
            covers(final(self).grid@, final(self).state@),
            r.0 <= limit,
            final(self).state@ == ticked_by(old(self).grid@, old(self).state@, r.0 as nat),
            r.1 ==> r.0 > 0 && quiet(final(self).state@),
            !r.1 ==> r.0 == limit,
            forall|k: nat|
                0 < k < r.0 || (k == r.0 && !r.1 && k > 0) ==> !quiet(
                    #[trigger] ticked_by(old(self).grid@, old(self).state@, k),
                ),
    {
        let ghost c = self.state@;
        let ghost cells = self.grid@;
        let mut n: u64 = 0;
        while n < limit
            invariant
                self.wf(),
                self.grid == old(self).grid,
                cells == self.grid@,
                c == old(self).state@,
                covers(cells, self.state@),
                n <= limit,
                c.tick + limit + 256 <= u64::MAX,
                self.state@.tick == c.tick + n,
                self.state@ == ticked_by(cells, c, n as nat),
                forall|k: nat| 0 < k <= n ==> !quiet(#[trigger] ticked_by(cells, c, k)),
            decreases limit - n,
        {
            self.step();
            n = n + 1;
            assert(self.state@ == ticked_by(cells, c, n as nat));
            if self.state.history.pending.is_empty() {
                return (n, true);
            }
        }
        (n, false)
    }

    pub fn run(&mut self, ticks: u64)
        requires
            old(self).wf(),
            covers(old(self).grid@, old(self).state@),
            old(self).state@.tick + ticks + 256 <= u64::MAX,
        ensures
            final(self).wf(),
            final(self).grid == old(self).grid,
            covers(final(self).grid@, final(self).state@),
            final(self).state@ == ticked_by(old(self).grid@, old(self).state@, ticks as nat),
    {
        let ghost c = self.state@;
        let ghost cells = self.grid@;
        for n in 0..ticks
            invariant
                self.wf(),
                self.grid == old(self).grid,
                cells == self.grid@,
                covers(cells, self.state@),
                c.tick + ticks + 256 <= u64::MAX,
                self.state@.tick == c.tick + n,
                self.state@ == ticked_by(cells, c, n as nat),
        {
            self.step();
            assert(self.state@ == ticked_by(cells, c, (n + 1) as nat));
        }
    }

    /// Read a lamp's lit state, which is how output ports are observed.
    ///
    /// A lamp lights when it is powered, **or when any block touching it is
    /// powered**. That second clause is block powering: a powered block
    /// activates adjacent mechanisms even though weak power never spreads onto
    /// dust.
    pub fn lamp_lit(&self, p: Pos) -> (r: bool)
        requires
            self.wf(),
            interior(p),
        ensures
            r == (powered(self.grid@, self.state@, p) || exists|i: int|
                0 <= i < 6 && powered(self.grid@, self.state@, #[trigger] around(p)[i])),
    {
        let f = self.field();
        let ghost (cells, c) = (self.grid@, self.state@);
        if f.block_powered(p) {
            assert(f.strongly(p) == strong(cells, c, p));
            assert(f.weakly(p) == weak(cells, c, p));
            return true;
        }
        assert(f.strongly(p) == strong(cells, c, p));
        assert(f.weakly(p) == weak(cells, c, p));
        let ps = touching(p);
        for i in 0..ps.len()
            invariant
                cells == self.grid@,
                c == self.state@,
                f.shows(cells, c),
                ps@ == around(p),
                forall|j: int| 0 <= j < i ==> !powered(cells, c, #[trigger] around(p)[j]),
        {
            let q: Pos = ps[i];
            assert(f.strongly(q) == strong(cells, c, q));
            assert(f.weakly(q) == weak(cells, c, q));
            if f.block_powered(q) {
                assert(powered(cells, c, around(p)[i as int]));
                return true;
            }
        }
        false
    }

    /// Support block of a torch: the block it is mounted on.
    fn torch_support(&self, p: Pos) -> (r: Pos)
        requires
            interior(p),
        ensures
            r == support_of(block_at(self.grid@, p), p),
    {
        match self.grid.get(p) {
            // `facing` points away from the support, so the support is behind it.
            Block::WallTorch { facing, .. } => offset(p, facing.opposite()),
            _ => down(p),
        }
    }
}

// --- laws ----------------------------------------------------------------------------

/// Dust loses one level per block: driven dust is at full strength, what dust
/// conducts into is at most one weaker, and any other dust that has power has it
/// from dust that is one stronger.
pub proof fn lemma_dust_decays(cells: Map<Pos, Block>, c: Circuit, p: Pos)
    ensures
        dust_level(cells, c, p) <= 15,
        dust_level(cells, c, p) == 15 <==> seeded(cells, c, p),
        forall|n: Pos| #[trigger]
            conducts_into(cells, p, n) ==> dust_level(cells, c, n) + 1 >= dust_level(cells, c, p),
        0 < dust_level(cells, c, p) < 15 ==> exists|m: Pos|
            #![trigger conducts_into(cells, m, p)]
            conducts_into(cells, m, p) && dust_level(cells, c, m) == dust_level(cells, c, p) + 1,
{
    lemma_level_of(cells, c, p, 0);
    if seeded(cells, c, p) {
        lemma_first_reached(cells, c, p, 0);
    }
    let v = dust_level(cells, c, p);
    if v > 0 {
        let k = (15 - v) as nat;
        assert forall|n: Pos| #[trigger] conducts_into(cells, p, n) implies dust_level(cells, c, n)
            + 1 >= v by {
            let d = choose|d: Dir| #[trigger] link(cells, p, d) == Some(n);
            if k < 14 {
                assert(link(cells, p, d) == Some(n) && reached(cells, c, p, k));
                assert(reached(cells, c, n, k + 1));
                lemma_level_least(cells, c, n, 0, k + 1);
            }
        }
        if k > 0 {
            let prev = (k - 1) as nat;
            let (m, d) = choose|m: Pos, d: Dir| #[trigger]
                link(cells, m, d) == Some(p) && reached(cells, c, m, prev);
            if prev > 0 && reached(cells, c, m, (prev - 1) as nat) {
                assert(link(cells, m, d) == Some(p) && reached(cells, c, m, (prev - 1) as nat));
                assert(reached(cells, c, p, prev));
            }
            lemma_first_reached(cells, c, m, prev);
            assert(conducts_into(cells, m, p));
        }
    }
}

/// What a level says of the dust's distance.
proof fn lemma_level_of(cells: Map<Pos, Block>, c: Circuit, p: Pos, k: nat)
    requires
        k <= 15,
        k > 0 ==> !reached(cells, c, p, (k - 1) as nat),
    ensures
        level_from(cells, c, p, k) <= 15 - k,
        level_from(cells, c, p, k) > 0 ==> {
            let n = (15 - level_from(cells, c, p, k)) as nat;
            reached(cells, c, p, n) && (n > 0 ==> !reached(cells, c, p, (n - 1) as nat))
        },
    decreases 15 - k,
{
    if k < 15 && !reached(cells, c, p, k) {
        lemma_level_of(cells, c, p, k + 1);
    }
}

proof fn lemma_level_least(cells: Map<Pos, Block>, c: Circuit, p: Pos, j: nat, k: nat)
    requires
        j <= k < 15,
        reached(cells, c, p, k),
    ensures
        level_from(cells, c, p, j) >= 15 - k,
    decreases k - j,
{
    if j < k && !reached(cells, c, p, j) {
        lemma_level_least(cells, c, p, j + 1, k);
    }
}

/// Two circuits whose components are in the same states.
pub open spec fn same_components(a: Circuit, b: Circuit) -> bool {
    a.torch_lit == b.torch_lit && a.repeater_powered == b.repeater_powered && a.lever_on
        == b.lever_on
}

/// The power in a circuit depends on the states of its components alone: not on
/// what is scheduled, on the tick, or on how the states came about.
pub proof fn lemma_power_from_components(cells: Map<Pos, Block>, a: Circuit, b: Circuit)
    requires
        same_components(a, b),
    ensures
        forall|p: Pos| #[trigger] dust_level(cells, a, p) == dust_level(cells, b, p),
        forall|p: Pos| #[trigger] powered(cells, a, p) == powered(cells, b, p),
        forall|p: Pos, d: Dir| #[trigger]
            repeater_reads(cells, a, p, d) == repeater_reads(cells, b, p, d),
{
    assert forall|p: Pos| #[trigger] strong(cells, a, p) == strong(cells, b, p) by {
        if strong(cells, a, p) {
            lemma_same_strong(cells, a, b, p);
        }
        if strong(cells, b, p) {
            lemma_same_strong(cells, b, a, p);
        }
    }
    assert forall|p: Pos| #[trigger] dust_level(cells, a, p) == dust_level(cells, b, p) by {
        lemma_same_level(cells, a, b, p, 0);
    }
    assert forall|p: Pos| #[trigger] powered(cells, a, p) == powered(cells, b, p) by {
        assert(strong(cells, a, p) == strong(cells, b, p));
        if weak(cells, a, p) {
            let q = choose|q: Pos| #[trigger] dust_level(cells, a, q) > 0 && powers(cells, q, p);
            assert(dust_level(cells, b, q) > 0 && powers(cells, q, p));
        }
        if weak(cells, b, p) {
            let q = choose|q: Pos| #[trigger] dust_level(cells, b, q) > 0 && powers(cells, q, p);
            assert(dust_level(cells, a, q) > 0 && powers(cells, q, p));
        }
    }
    assert forall|p: Pos, d: Dir| #[trigger]
        repeater_reads(cells, a, p, d) == repeater_reads(cells, b, p, d) by {
        assert(powered(cells, a, beside(p, d)) == powered(cells, b, beside(p, d)));
        assert(dust_level(cells, a, beside(p, d)) == dust_level(cells, b, beside(p, d)));
    }
}

proof fn lemma_same_strong(cells: Map<Pos, Block>, a: Circuit, b: Circuit, p: Pos)
    requires
        same_components(a, b),
        strong(cells, a, p),
    ensures
        strong(cells, b, p),
{
    let q = choose|q: Pos| #[trigger] active(cells, a, q) && target_of(block_at(cells, q), q) == p;
    assert(active(cells, b, q));
}

proof fn lemma_same_seeded(cells: Map<Pos, Block>, a: Circuit, b: Circuit, p: Pos)
    requires
        same_components(a, b),
        seeded(cells, a, p),
    ensures
        seeded(cells, b, p),
{
    if exists|q: Pos| #[trigger] active(cells, a, q) && ends_of(block_at(cells, q), q).contains(p) {
        let q = choose|q: Pos| #[trigger] active(cells, a, q) && ends_of(block_at(cells, q), q).contains(p);
        assert(active(cells, b, q));
    } else {
        let q = choose|q: Pos| #[trigger] strong(cells, a, q) && around(q).contains(p);
        lemma_same_strong(cells, a, b, q);
        assert(strong(cells, b, q) && around(q).contains(p));
    }
}

proof fn lemma_same_reached(cells: Map<Pos, Block>, a: Circuit, b: Circuit, p: Pos, k: nat)
    requires
        same_components(a, b),
        reached(cells, a, p, k),
    ensures
        reached(cells, b, p, k),
    decreases k,
{
    if k == 0 {
        lemma_same_seeded(cells, a, b, p);
    } else if reached(cells, a, p, (k - 1) as nat) {
        lemma_same_reached(cells, a, b, p, (k - 1) as nat);
    } else {
        let (m, d) = choose|m: Pos, d: Dir| #[trigger]
            link(cells, m, d) == Some(p) && reached(cells, a, m, (k - 1) as nat);
        lemma_same_reached(cells, a, b, m, (k - 1) as nat);
        assert(link(cells, m, d) == Some(p) && reached(cells, b, m, (k - 1) as nat));
    }
}

proof fn lemma_same_level(cells: Map<Pos, Block>, a: Circuit, b: Circuit, p: Pos, k: nat)
    requires
        same_components(a, b),
        k <= 15,
    ensures
        level_from(cells, a, p, k) == level_from(cells, b, p, k),
    decreases 15 - k,
{
    if k < 15 {
        if reached(cells, a, p, k) {
            lemma_same_reached(cells, a, b, p, k);
        } else {
            if reached(cells, b, p, k) {
                lemma_same_reached(cells, b, a, p, k);
            }
            lemma_same_level(cells, a, b, p, k + 1);
        }
    }
}

/// No torch is burned out.
pub open spec fn none_burned(cells: Map<Pos, Block>, c: Circuit) -> bool {
    forall|p: Pos| is_torch(#[trigger] block_at(cells, p)) ==> !burned(c, p, c.tick)
}

/// Every component agrees with the power around it: a torch is lit exactly when
/// its support is unpowered, a repeater is on exactly when its input is.
pub open spec fn at_rest(cells: Map<Pos, Block>, c: Circuit) -> bool {
    &&& forall|p: Pos|
        is_torch(#[trigger] block_at(cells, p)) ==> on(c.torch_lit, p) == !powered(
            cells,
            c,
            support_of(block_at(cells, p), p),
        )
    &&& forall|p: Pos|
        match #[trigger] block_at(cells, p) {
            Block::Repeater { facing, .. } => on(c.repeater_powered, p) == repeater_reads(
                cells,
                c,
                p,
                facing,
            ),
            _ => true,
        }
}

/// A circuit that has settled is at rest: once a tick has left nothing scheduled,
/// and no torch burned out, every component agrees with the power around it.
pub proof fn lemma_settled_is_at_rest(cells: Map<Pos, Block>, c: Circuit)
    requires
        quiet(ticked(cells, c)),
        none_burned(cells, ticked(cells, c)),
    ensures
        at_rest(cells, ticked(cells, c)),
{
    let before = fired(cells, c, (c.tick + 1) as u64);
    let after = ticked(cells, c);
    assert forall|p: Pos| is_torch(#[trigger] block_at(cells, p)) implies !burned(
        before,
        p,
        before.tick,
    ) by {
        assert(!burned(after, p, after.tick));
    }
    assert(after.torch_lit =~= before.torch_lit);
    lemma_power_from_components(cells, before, after);
    assert forall|p: Pos| is_torch(#[trigger] block_at(cells, p)) implies on(after.torch_lit, p)
        == !powered(cells, after, support_of(block_at(cells, p), p)) by {
        assert(!after.pending.contains_key(p));
        let s = support_of(block_at(cells, p), p);
        assert(powered(cells, before, s) == powered(cells, after, s));
    }
    assert forall|p: Pos| (match #[trigger] block_at(cells, p) {
        Block::Repeater { facing, .. } => on(after.repeater_powered, p) == repeater_reads(
            cells,
            after,
            p,
            facing,
        ),
        _ => true,
    }) by {
        if block_at(cells, p) is Repeater {
            let facing = block_at(cells, p)->Repeater_facing;
            assert(!after.pending.contains_key(p));
            assert(repeater_reads(cells, before, p, facing) == repeater_reads(cells, after, p, facing));
        }
    }
}

proof fn lemma_recent_shrinks(s: Seq<u64>, now: u64, later: u64)
    requires
        now <= later,
    ensures
        s.filter(|t: u64| recent(later, t)).len() <= s.filter(|t: u64| recent(now, t)).len(),
    decreases s.len(),
{
    reveal(Seq::filter);
    if s.len() > 0 {
        lemma_recent_shrinks(s.drop_last(), now, later);
    }
}

/// A circuit at rest with nothing scheduled stays as it is: a tick changes nothing
/// but the time.
pub proof fn lemma_rest_is_kept(cells: Map<Pos, Block>, c: Circuit)
    requires
        quiet(c),
        at_rest(cells, c),
        none_burned(cells, c),
        c.tick < u64::MAX,
    ensures
        ticked(cells, c) == (Circuit { tick: (c.tick + 1) as u64, ..c }),
        at_rest(cells, ticked(cells, c)),
        none_burned(cells, ticked(cells, c)),
{
    let now = (c.tick + 1) as u64;
    let moved = Circuit { tick: now, ..c };
    let before = fired(cells, c, now);
    lemma_same_circuit(before, moved);
    lemma_power_from_components(cells, c, moved);
    assert forall|p: Pos| is_torch(#[trigger] block_at(cells, p)) implies !burned(moved, p, now) by {
        assert(!burned(c, p, c.tick));
        if c.toggles.contains_key(p) {
            lemma_recent_shrinks(c.toggles[p], c.tick, now);
        }
    }
    assert forall|p: Pos| #[trigger] next_pending(cells, moved, p) is None by {
        let b = block_at(cells, p);
        if b is Repeater {
            let facing = b->Repeater_facing;
            assert(repeater_reads(cells, c, p, facing) == repeater_reads(cells, moved, p, facing));
        } else if is_torch(b) {
            let s = support_of(b, p);
            assert(powered(cells, c, s) == powered(cells, moved, s));
        }
    }
    let after = evaluated(cells, moved);
    lemma_same_circuit(after, moved);
    assert forall|p: Pos| is_torch(#[trigger] block_at(cells, p)) implies on(after.torch_lit, p)
        == !powered(cells, after, support_of(block_at(cells, p), p)) by {
        let s = support_of(block_at(cells, p), p);
        assert(powered(cells, c, s) == powered(cells, moved, s));
    }
    assert forall|p: Pos| (match #[trigger] block_at(cells, p) {
        Block::Repeater { facing, .. } => on(after.repeater_powered, p) == repeater_reads(
            cells,
            after,
            p,
            facing,
        ),
        _ => true,
    }) by {
        if block_at(cells, p) is Repeater {
            let facing = block_at(cells, p)->Repeater_facing;
            assert(repeater_reads(cells, c, p, facing) == repeater_reads(cells, moved, p, facing));
        }
    }
}

/// What is noted of toggles is of torches, and has taken place.
pub open spec fn toggles_past(cells: Map<Pos, Block>, c: Circuit) -> bool {
    forall|p: Pos| #[trigger]
        c.toggles.contains_key(p) ==> is_torch(block_at(cells, p)) && forall|i: int|
            0 <= i < c.toggles[p].len() ==> (#[trigger] c.toggles[p][i]) <= c.tick
}

/// A simulation begins without toggles.
pub proof fn lemma_no_toggles(cells: Map<Pos, Block>)
    ensures
        toggles_past(cells, placed(cells)),
{
}

/// A tick notes only what takes place.
pub proof fn lemma_toggles_past(cells: Map<Pos, Block>, c: Circuit)
    requires
        toggles_past(cells, c),
        c.tick < u64::MAX,
    ensures
        toggles_past(cells, ticked(cells, c)),
{
    let now = (c.tick + 1) as u64;
    let after = ticked(cells, c);
    assert forall|p: Pos| #[trigger] after.toggles.contains_key(p) implies is_torch(block_at(cells, p)) && forall|
        i: int,
    |
        0 <= i < after.toggles[p].len() ==> (#[trigger] after.toggles[p][i]) <= after.tick by {
        if due(c, p, now) && is_torch(block_at(cells, p)) {
            let before = if c.toggles.contains_key(p) {
                c.toggles[p]
            } else {
                Seq::empty()
            };
            let all = before.push(now);
            let kept = all.filter(|t: u64| recent(now, t));
            assert forall|i: int| 0 <= i < kept.len() implies (#[trigger] kept[i]) <= now by {
                all.filter_lemma(|t: u64| recent(now, t));
                assert(kept.contains(kept[i]));
                lemma_filter_from(all, now, kept[i]);
                let k = choose|k: int| 0 <= k < all.len() && all[k] == kept[i];
                if k < before.len() {
                    assert(all[k] == c.toggles[p][k]);
                }
            }
        } else {
            assert(c.toggles.contains_key(p));
        }
    }
}

/// What is kept was there.
proof fn lemma_filter_from(s: Seq<u64>, now: u64, x: u64)
    requires
        s.filter(|t: u64| recent(now, t)).contains(x),
    ensures
        s.contains(x),
    decreases s.len(),
{
    reveal(Seq::filter);
    if s.len() > 0 {
        let rest = s.drop_last();
        let kept = rest.filter(|t: u64| recent(now, t));
        let all = s.filter(|t: u64| recent(now, t));
        let i = choose|i: int| 0 <= i < all.len() && all[i] == x;
        if i < kept.len() {
            assert(kept.contains(kept[i]));
            lemma_filter_from(rest, now, x);
            let k = choose|k: int| 0 <= k < rest.len() && rest[k] == x;
            assert(s[k] == x);
        } else {
            assert(s[s.len() - 1] == x);
        }
    }
}

/// A torch that is burned out after a tick is unlit, and nothing is scheduled for it.
pub proof fn lemma_burned_is_unlit(cells: Map<Pos, Block>, c: Circuit, p: Pos)
    requires
        toggles_past(cells, c),
        c.tick < u64::MAX,
        burned(ticked(cells, c), p, ticked(cells, c).tick),
    ensures
        is_torch(block_at(cells, p)),
        !on(ticked(cells, c).torch_lit, p),
        !ticked(cells, c).pending.contains_key(p),
{
    lemma_toggles_past(cells, c);
    let f = fired(cells, c, (c.tick + 1) as u64);
    assert(burned(f, p, f.tick));
}

/// A torch toggles no more while it is burned out.
proof fn lemma_burned_frozen(cells: Map<Pos, Block>, c: Circuit, p: Pos, n: nat)
    requires
        toggles_past(cells, c),
        c.tick + n <= u64::MAX,
        burned(c, p, c.tick),
        !c.pending.contains_key(p),
        forall|k: nat| k <= n ==> burned(#[trigger] ticked_by(cells, c, k), p, (c.tick + k) as u64),
    ensures
        ({
            let after = ticked_by(cells, c, n);
            &&& toggles_past(cells, after)
            &&& after.tick == c.tick + n
            &&& after.toggles.contains_key(p)
            &&& after.toggles[p] == c.toggles[p]
            &&& !after.pending.contains_key(p)
            &&& n > 0 ==> !on(after.torch_lit, p)
        }),
    decreases n,
{
    if n > 0 {
        assert forall|k: nat| k <= n - 1 implies burned(
            #[trigger] ticked_by(cells, c, k),
            p,
            (c.tick + k) as u64,
        ) by {}
        lemma_burned_frozen(cells, c, p, (n - 1) as nat);
        let before = ticked_by(cells, c, (n - 1) as nat);
        lemma_toggles_past(cells, before);
        assert(burned(ticked_by(cells, c, n), p, (c.tick + n) as u64));
        lemma_burned_is_unlit(cells, before, p);
    }
}

/// How many ticks it takes a burned-out torch to recover: the least number, from `n`
/// on, after which it is not burned out.
pub open spec fn recovery(cells: Map<Pos, Block>, c: Circuit, p: Pos, n: nat) -> nat
    decreases BURNOUT_WINDOW + 1 - n,
{
    if n > BURNOUT_WINDOW || !burned(ticked_by(cells, c, n), p, ticked_by(cells, c, n).tick) {
        n
    } else {
        recovery(cells, c, p, n + 1)
    }
}

/// Burnout is recoverable: a torch that is burned out after a tick is unlit, stays so
/// while it is burned out, and is burned out no more after at most one tick more than
/// the window.
pub proof fn lemma_burnout_recovers(cells: Map<Pos, Block>, before: Circuit, p: Pos)
    requires
        toggles_past(cells, before),
        before.tick + BURNOUT_WINDOW + 2 <= u64::MAX,
        burned(ticked(cells, before), p, ticked(cells, before).tick),
    ensures
        ({
            let c = ticked(cells, before);
            let k = recovery(cells, c, p, 0);
            &&& 0 < k <= BURNOUT_WINDOW + 1
            &&& !burned(ticked_by(cells, c, k), p, ticked_by(cells, c, k).tick)
            &&& forall|j: nat|
                j < k ==> burned(#[trigger] ticked_by(cells, c, j), p, ticked_by(cells, c, j).tick) && !on(
                    ticked_by(cells, c, j).torch_lit,
                    p,
                )
        }),
{
    let c = ticked(cells, before);
    let k = recovery(cells, c, p, 0);
    lemma_burned_is_unlit(cells, before, p);
    lemma_toggles_past(cells, before);
    lemma_recovery(cells, c, p, 0);
    assert forall|j: nat| j < k implies burned(#[trigger] ticked_by(cells, c, j), p, (c.tick + j) as u64) by {
        lemma_tick_count(cells, c, j);
    }
    assert forall|j: nat| j < k implies burned(
        #[trigger] ticked_by(cells, c, j),
        p,
        ticked_by(cells, c, j).tick,
    ) && !on(ticked_by(cells, c, j).torch_lit, p) by {
        lemma_burned_frozen(cells, c, p, j);
    }
    let after = ticked_by(cells, c, k);
    if burned(after, p, after.tick) {
        assert(k == BURNOUT_WINDOW + 1);
        lemma_tick_count(cells, c, k);
        lemma_burned_frozen(cells, c, p, k);
        lemma_none_recent(after.toggles[p], after.tick);
    }
}

/// A torch is burned out until it recovers.
proof fn lemma_recovery(cells: Map<Pos, Block>, c: Circuit, p: Pos, n: nat)
    requires
        n <= BURNOUT_WINDOW + 1,
    ensures
        n <= recovery(cells, c, p, n) <= BURNOUT_WINDOW + 1,
        forall|j: nat|
            n <= j < recovery(cells, c, p, n) ==> burned(
                #[trigger] ticked_by(cells, c, j),
                p,
                ticked_by(cells, c, j).tick,
            ),
        recovery(cells, c, p, n) <= BURNOUT_WINDOW ==> !burned(
            ticked_by(cells, c, recovery(cells, c, p, n)),
            p,
            ticked_by(cells, c, recovery(cells, c, p, n)).tick,
        ),
    decreases BURNOUT_WINDOW + 1 - n,
{
    if n <= BURNOUT_WINDOW && burned(ticked_by(cells, c, n), p, ticked_by(cells, c, n).tick) {
        lemma_recovery(cells, c, p, n + 1);
    }
}

/// Every tick is counted.
proof fn lemma_tick_count(cells: Map<Pos, Block>, c: Circuit, n: nat)
    requires
        c.tick + n <= u64::MAX,
    ensures
        ticked_by(cells, c, n).tick == c.tick + n,
    decreases n,
{
    if n > 0 {
        lemma_tick_count(cells, c, (n - 1) as nat);
    }
}

proof fn lemma_none_recent(s: Seq<u64>, now: u64)
    requires
        forall|i: int| 0 <= i < s.len() ==> (#[trigger] s[i]) + BURNOUT_WINDOW < now,
    ensures
        s.filter(|t: u64| recent(now, t)).len() == 0,
    decreases s.len(),
{
    reveal(Seq::filter);
    if s.len() > 0 {
        lemma_none_recent(s.drop_last(), now);
    }
}

} // verus!
