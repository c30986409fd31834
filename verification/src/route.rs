//! A 3D maze router for redstone dust.
//!
//! # Why a router at all
//!
//! Giving every connection a private row and column is collision-free but cannot
//! express a crossing. Real netlists need crossings, and the only place to put
//! one in Minecraft is a different Y layer. This router searches free space in
//! three dimensions, so crossings happen naturally by going over or under.
//!
//! # The wire model
//!
//! A *wire node* at `p` means dust at `p` sitting on a solid block at `p - Y`.
//! Two wire nodes conduct when they are orthogonally adjacent at the same Y, or
//! when they differ by one in Y and one in X or Z (a dust slope). A slope only
//! forms if the block directly above the lower dust is non-opaque, so every
//! node reserves the cell above itself and the router never fills it.
//!
//! # Keepout
//!
//! Dust shorts to anything it touches, so two different nets may not have wire
//! nodes that are adjacent or in a slope relationship. Rather than detect that
//! after the fact, the router refuses to place a node next to another net's
//! wire. That makes shorts structurally impossible instead of merely unlikely,
//! at the cost of routing density.
use crate::boxmap::{CostMap, FlagMap};
use crate::posmap::{layer_rank, PosMap};
use crate::redstone::around;
use crate::sorting::{increasing, sorted};
use crate::world::{
    above, below, beside, block_at, down, interior, is_dust, offset, opaque_block, up, Block, Dir,
    Face, Grid, Pos,
};
use crate::heap::{is_top, Frontier, Heap};
use crate::search::{
    enterable, estimate, front, gave_up_text, heuristic, is_answer, is_outcome, left,
    lemma_reaches_end, lemma_reaches_limit, lemma_reaches_on, lemma_reaches_past,
    lemma_reaches_start, lemma_reaches_top, lemma_search, no_route_text, places, popped, reaches,
    relaxed, searched, started, step_cost, steps_to, trail, unstarted, ways_hold, well_posed, Job,
    Node, Search, TURN_COST,
};
use crate::deep::{spans, within};
use crate::tech::in_world;
use crate::text::{decimal, push_decimal, push_signed, signed};
use crate::paths::{conflict_of, first_conflict, plan_repeaters, repeaters_of};
use crate::steps::refusal;
use crate::world::{
    block_label, collision_text, fits_at, pos_label, push_block, push_pos, Material,
};
use vstd::prelude::*;
use vstd::string::*;

verus! {

/// Identifies which net owns a wire node. Distinct nets may never touch.
pub type NetId = u32;

/// Owner assigned to dust that was already in the grid when the router was
/// created - gate input pads and the like. It belongs to no route, but it must
/// still participate in keepout: a route running alongside a gate's pad would
/// short straight into that gate's input.
pub const PREPLACED: NetId = 0xffff_ffff;

/// How hard the router tries.
#[derive(Clone, Copy)]
pub struct Tuning {
    /// Searches per route.
    pub attempts: usize,
    /// Searches before the price of a slope rises.
    pub slope_div: usize,
    /// One, two or three fix the weight of the heuristic; any other number cycles
    /// it.
    pub weight_mode: usize,
    /// What the heuristic charges for each level that is left to descend. Must not
    /// exceed the cheapest price of a slope or the bound stops being admissible.
    pub slope_floor: i32,
}

/// The tuning that every design is known to place with.
pub open spec fn usual_tuning() -> Tuning {
    Tuning { attempts: 24, slope_div: 6, weight_mode: 0, slope_floor: 14 }
}

impl Tuning {
    pub fn usual() -> (t: Tuning)
        ensures
            t == usual_tuning(),
    {
        Tuning { attempts: 24, slope_div: 6, weight_mode: 0, slope_floor: 14 }
    }
}

/// What the router knows of the wires, as a mathematical value.
pub struct Board {
    /// How contested each cell has proved across routing attempts.
    pub history: Map<Pos, i32>,
    /// Dust cells already placed, and which net owns them.
    pub owner: Map<Pos, NetId>,
    /// Cells no dust may ever occupy: cell bodies, and the clearance above
    /// every wire node.
    pub blocked: Set<Pos>,
    /// Cells set aside for one net's exclusive use.
    pub reserved: Map<Pos, NetId>,
    /// Cells beside a lever's support block, mapped to that lever.
    pub lever_hazard: Map<Pos, Pos>,
    /// The endpoints of the route currently being searched.
    pub active_endpoints: Set<Pos>,
    /// Endpoints deliberately attached to: gate outputs and feed stubs.
    pub claimed: Set<Pos>,
    /// Cells temporarily barred while retrying a single route.
    pub scratch: Set<Pos>,
}

/// The router's maps.
pub struct Wires {
    history: PosMap<i32>,
    owner: PosMap<NetId>,
    blocked: PosMap<bool>,
    reserved: PosMap<NetId>,
    lever_hazard: PosMap<Pos>,
    active_endpoints: PosMap<bool>,
    claimed: PosMap<bool>,
    scratch: PosMap<bool>,
}

impl View for Wires {
    type V = Board;

    closed spec fn view(&self) -> Board {
        Board {
            history: self.history@,
            owner: self.owner@,
            blocked: self.blocked@.dom(),
            reserved: self.reserved@,
            lever_hazard: self.lever_hazard@,
            active_endpoints: self.active_endpoints@.dom(),
            claimed: self.claimed@.dom(),
            scratch: self.scratch@.dom(),
        }
    }
}

pub struct Router {
    pub wires: Wires,
    /// Search limits, to keep a hopeless route from running away.
    pub max_expansions: usize,
    pub tuning: Tuning,
}

impl Clone for Router {
    fn clone(&self) -> (r: Router)
        ensures
            r@ == self@,
            r.max_expansions == self.max_expansions,
            r.tuning == self.tuning,
    {
        let w = &self.wires;
        let wires = Wires {
            history: w.history.clone(),
            owner: w.owner.clone(),
            blocked: w.blocked.clone(),
            reserved: w.reserved.clone(),
            lever_hazard: w.lever_hazard.clone(),
            active_endpoints: w.active_endpoints.clone(),
            claimed: w.claimed.clone(),
            scratch: w.scratch.clone(),
        };
        Router { wires, max_expansions: self.max_expansions, tuning: self.tuning }
    }
}

/// Coordinates with room for a wire node: its substrate, its clearance, and all
/// that it could touch.
pub open spec fn roomy(p: Pos) -> bool {
    &&& i32::MIN + 3 < p.0 < i32::MAX - 3
    &&& i32::MIN + 3 < p.1 < i32::MAX - 3
    &&& i32::MIN + 3 < p.2 < i32::MAX - 3
}

/// The levers on the board have room around them.
pub open spec fn levers_inside(b: Board) -> bool {
    forall|q: Pos| #[trigger] b.lever_hazard.contains_key(q) ==> interior(b.lever_hazard[q])
}

// --- where wires may go --------------------------------------------------------------

/// The positions one dust step from `p`, each with the number of its direction:
/// same level, or one up or down.
pub open spec fn steps_from(p: Pos) -> Seq<(Pos, u8)> {
    let n = beside(p, Dir::North);
    let s = beside(p, Dir::South);
    let w = beside(p, Dir::West);
    let e = beside(p, Dir::East);
    seq![
        (n, 0u8),
        (above(n), 0u8),
        (below(n), 0u8),
        (s, 1u8),
        (above(s), 1u8),
        (below(s), 1u8),
        (w, 2u8),
        (above(w), 2u8),
        (below(w), 2u8),
        (e, 3u8),
        (above(e), 3u8),
        (below(e), 3u8),
    ]
}

/// Dust at `c` would join dust at `p`.
pub open spec fn joins(p: Pos, c: Pos) -> bool {
    exists|i: int| 0 <= i < 12 && (#[trigger] steps_from(p)[i]).0 == c
}

pub open spec fn free(cells: Map<Pos, Block>, p: Pos) -> bool {
    block_at(cells, p) == Block::Air
}

pub open spec fn owned_by_other(b: Board, p: Pos, net: NetId) -> bool {
    b.owner.contains_key(p) && b.owner[p] != net
}

pub open spec fn reserved_for_other(b: Board, p: Pos, net: NetId) -> bool {
    b.reserved.contains_key(p) && b.reserved[p] != net
}

/// `net` owns a cell that touches the lever.
pub open spec fn attached(b: Board, lever: Pos, net: NetId) -> bool {
    exists|i: int|
        0 <= i < 6 && b.owner.contains_key(#[trigger] around(lever)[i]) && b.owner[around(lever)[i]]
            == net
}

/// Dust of `net` may join what is at `c`: it is nobody's, or an endpoint of the
/// route being searched that is the net's own.
pub open spec fn may_join(b: Board, c: Pos, net: NetId) -> bool {
    b.owner.contains_key(c) ==> b.owner[c] == net && b.active_endpoints.contains(c)
}

/// No cell of the column within two levels of `q` has an owner.
pub open spec fn column_clear(b: Board, q: Pos) -> bool {
    &&& !b.owner.contains_key((q.0, (q.1 - 2) as i32, q.2))
    &&& !b.owner.contains_key((q.0, (q.1 - 1) as i32, q.2))
    &&& !b.owner.contains_key((q.0, (q.1 + 1) as i32, q.2))
    &&& !b.owner.contains_key((q.0, (q.1 + 2) as i32, q.2))
}

/// `net` can put a wire node at `q`.
pub open spec fn placeable(b: Board, cells: Map<Pos, Block>, q: Pos, net: NetId) -> bool {
    &&& !b.blocked.contains(q)
    &&& !b.scratch.contains(q)
    &&& !reserved_for_other(b, q, net)
    &&& !b.owner.contains_key(q)
    &&& free(cells, q)
    // Beside a lever's support block: only for the net that attaches to that lever.
    &&& b.lever_hazard.contains_key(q) ==> attached(b, b.lever_hazard[q], net)
    // Substrate must be placeable solid.
    &&& free(cells, below(q)) || opaque_block(block_at(cells, below(q)))
    // Clearance above, so slopes into this node can form.
    &&& free(cells, above(q))
    // Keepout.
    &&& forall|i: int| 0 <= i < 12 ==> may_join(b, (#[trigger] steps_from(q)[i]).0, net)
    &&& column_clear(b, q)
}

impl Wires {
    fn has_owner(&self, p: Pos) -> (r: bool)
        ensures
            r == self@.owner.contains_key(p),
    {
        self.owner.contains(p)
    }

    fn owned_by(&self, p: Pos, net: NetId) -> (r: bool)
        ensures
            r == (self@.owner.contains_key(p) && self@.owner[p] == net),
    {
        match self.owner.get(p) {
            Some(o) => *o == net,
            None => false,
        }
    }

    fn owned_by_other(&self, p: Pos, net: NetId) -> (r: bool)
        ensures
            r == owned_by_other(self@, p, net),
    {
        match self.owner.get(p) {
            Some(o) => *o != net,
            None => false,
        }
    }

    fn reserved_for_other(&self, p: Pos, net: NetId) -> (r: bool)
        ensures
            r == reserved_for_other(self@, p, net),
    {
        match self.reserved.get(p) {
            Some(o) => *o != net,
            None => false,
        }
    }

    fn attached(&self, lever: Pos, net: NetId) -> (r: bool)
        requires
            interior(lever),
        ensures
            r == attached(self@, lever, net),
    {
        let ghost ps = around(lever);
        if self.owned_by(offset(lever, Dir::North), net) {
            assert(self@.owner.contains_key(ps[0]));
            return true;
        }
        if self.owned_by(offset(lever, Dir::South), net) {
            assert(self@.owner.contains_key(ps[1]));
            return true;
        }
        if self.owned_by(offset(lever, Dir::West), net) {
            assert(self@.owner.contains_key(ps[2]));
            return true;
        }
        if self.owned_by(offset(lever, Dir::East), net) {
            assert(self@.owner.contains_key(ps[3]));
            return true;
        }
        if self.owned_by(up(lever), net) {
            assert(self@.owner.contains_key(ps[4]));
            return true;
        }
        if self.owned_by(down(lever), net) {
            assert(self@.owner.contains_key(ps[5]));
            return true;
        }
        false
    }

    fn may_join(&self, c: Pos, net: NetId) -> (r: bool)
        ensures
            r == may_join(self@, c, net),
    {
        match self.owner.get(c) {
            Some(o) => *o == net && self.active_endpoints.contains(c),
            None => true,
        }
    }

    /// Keepout on one side of `q`.
    fn side_clear(&self, q: Pos, d: Dir, net: NetId) -> (r: bool)
        requires
            roomy(q),
        ensures
            r == (may_join(self@, beside(q, d), net) && may_join(self@, above(beside(q, d)), net)
                && may_join(self@, below(beside(q, d)), net)),
    {
        let n = offset(q, d);
        self.may_join(n, net) && self.may_join(up(n), net) && self.may_join(down(n), net)
    }

    /// Can `net` put a wire node at `q`?
    fn placeable(&self, grid: &Grid, q: Pos, net: NetId) -> (r: bool)
        requires
            roomy(q),
            levers_inside(self@),
        ensures
            r == placeable(self@, grid@, q, net),
    {
        // `blocked` wins over ownership: a cell can belong to this net and still
        // be off limits, e.g. the repeater at the end of a feed stub.
        if self.blocked.contains(q) || self.scratch.contains(q) {
            return false;
        }
        if self.reserved_for_other(q, net) {
            return false;
        }
        // No cell is ever shared, not even between two fanout branches of the
        // same net. Sharing looks harmless electrically, but each branch plans
        // its repeaters independently, so the second one tries to drop a
        // repeater onto dust the first already placed. Keeping branches disjoint
        // costs area and buys a much simpler invariant.
        if self.has_owner(q) || !grid.is_free(q) {
            return false;
        }
        // Beside a lever's support block: allowed only for the net that
        // attaches to that lever, identified by owning a cell next to it.
        match self.lever_hazard.get(q) {
            Some(lev) => {
                assert(self@.lever_hazard.contains_key(q));
                if !self.attached(*lev, net) {
                    return false;
                }
            },
            None => {},
        }
        // Substrate must be placeable solid, and must not be someone's dust.
        let sub = down(q);
        if !grid.is_free(sub) && !grid.get(sub).is_opaque() {
            return false;
        }
        // Clearance above, so slopes into this node can form.
        if !grid.is_free(up(q)) {
            return false;
        }
        // Keepout: no *other* net's wire orthogonally adjacent or in a slope
        // relationship. Either would short the two nets together.
        //
        // A net must also stay clear of itself, everywhere except the endpoints
        // it is meant to attach to. Two fanout branches of one net running side
        // by side look harmless - same signal either way - but where one passes
        // beside the other's repeater it bridges that repeater's output back to
        // its input, and the net becomes a self-sustaining loop.
        let clear = self.side_clear(q, Dir::North, net) && self.side_clear(q, Dir::South, net)
            && self.side_clear(q, Dir::West, net) && self.side_clear(q, Dir::East, net);
        proof {
            lemma_sides(self@, q, net);
        }
        if !clear {
            return false;
        }
        // Same column, within two levels: the two nodes' substrate and
        // clearance cells would fight over the same block.
        !self.has_owner((q.0, q.1 - 2, q.2)) && !self.has_owner((q.0, q.1 - 1, q.2))
            && !self.has_owner((q.0, q.1 + 1, q.2)) && !self.has_owner((q.0, q.1 + 2, q.2))
    }
}

spec fn side_open(b: Board, q: Pos, d: Dir, net: NetId) -> bool {
    may_join(b, beside(q, d), net) && may_join(b, above(beside(q, d)), net) && may_join(
        b,
        below(beside(q, d)),
        net,
    )
}

proof fn lemma_sides(b: Board, q: Pos, net: NetId)
    ensures
        (forall|i: int| 0 <= i < 12 ==> may_join(b, (#[trigger] steps_from(q)[i]).0, net)) <==> (
        side_open(b, q, Dir::North, net) && side_open(b, q, Dir::South, net) && side_open(
            b,
            q,
            Dir::West,
            net,
        ) && side_open(b, q, Dir::East, net)),
{
    let s = steps_from(q);
    if forall|i: int| 0 <= i < 12 ==> may_join(b, (#[trigger] s[i]).0, net) {
        assert(may_join(b, s[0].0, net));
        assert(may_join(b, s[1].0, net));
        assert(may_join(b, s[2].0, net));
        assert(may_join(b, s[3].0, net));
        assert(may_join(b, s[4].0, net));
        assert(may_join(b, s[5].0, net));
        assert(may_join(b, s[6].0, net));
        assert(may_join(b, s[7].0, net));
        assert(may_join(b, s[8].0, net));
        assert(may_join(b, s[9].0, net));
        assert(may_join(b, s[10].0, net));
        assert(may_join(b, s[11].0, net));
    }
}

// --- the board of a grid ---------------------------------------------------------------

/// The block that the lever `b` at `p` is attached to.
pub open spec fn lever_support(b: Block, p: Pos) -> Pos {
    crate::redstone::target_of(b, p)
}

/// The cells beside and under `p`, which it would energise if it were powered.
pub open spec fn ring(p: Pos) -> Seq<Pos> {
    seq![
        beside(p, Dir::North),
        beside(p, Dir::South),
        beside(p, Dir::West),
        beside(p, Dir::East),
        below(p),
    ]
}

/// The lever at `q` strongly powers a block that `c` is beside. Only the net that
/// attaches to the lever may put wire there.
pub open spec fn endangers(cells: Map<Pos, Block>, q: Pos, c: Pos) -> bool {
    &&& block_at(cells, q) is Lever
    &&& ring(lever_support(block_at(cells, q), q)).contains(c)
    &&& c != q
}

/// The last lever, by layer, that endangers `c`.
pub open spec fn last_lever(cells: Map<Pos, Block>, c: Pos, q: Pos) -> bool {
    &&& endangers(cells, q, c)
    &&& forall|x: Pos| #[trigger] endangers(cells, x, c) ==> layer_rank(x) <= layer_rank(q)
}

/// A lever stands beside `p`.
pub open spec fn beside_lever(cells: Map<Pos, Block>, p: Pos) -> bool {
    exists|q: Pos, d: Dir| #[trigger] beside(q, d) == p && block_at(cells, q) is Lever
}

/// Dust stands on `p`.
pub open spec fn under_dust(cells: Map<Pos, Block>, p: Pos) -> bool {
    exists|q: Pos| #[trigger] below(q) == p && is_dust(block_at(cells, q))
}

/// What a router knows of a grid it has just seen. Everything present is an
/// obstacle, and so are the cells beside a lever and under dust; the dust belongs to
/// [`PREPLACED`].
pub open spec fn board_from(cells: Map<Pos, Block>) -> Board {
    Board {
        history: Map::empty(),
        owner: Map::new(|p: Pos| is_dust(block_at(cells, p)), |p: Pos| PREPLACED),
        blocked: Set::new(
            |p: Pos|
                block_at(cells, p) != Block::Air || beside_lever(cells, p) || under_dust(cells, p),
        ),
        reserved: Map::empty(),
        lever_hazard: Map::new(
            |c: Pos| exists|q: Pos| endangers(cells, q, c),
            |c: Pos| choose|q: Pos| last_lever(cells, c, q),
        ),
        active_endpoints: Set::empty(),
        claimed: Set::empty(),
        scratch: Set::empty(),
    }
}

/// Every cell is roomy.
pub open spec fn all_roomy(cells: Map<Pos, Block>) -> bool {
    forall|p: Pos| #[trigger] cells.contains_key(p) ==> roomy(p)
}

/// A cell that comes after all others in order.
spec fn comes_last(cells: Map<Pos, Block>, p: Pos) -> bool {
    forall|q: Pos| #[trigger] cells.contains_key(q) ==> layer_rank(q) < layer_rank(p)
}

/// Of the levers that endanger `c`, one is the last.
spec fn levers_end_at(cells: Map<Pos, Block>, c: Pos) -> bool {
    (exists|q: Pos| endangers(cells, q, c)) ==> exists|q: Pos| last_lever(cells, c, q)
}

spec fn levers_end(cells: Map<Pos, Block>) -> bool {
    forall|c: Pos| #[trigger] levers_end_at(cells, c)
}

proof fn lemma_hazard_value(cells: Map<Pos, Block>, c: Pos, q: Pos)
    requires
        last_lever(cells, c, q),
    ensures
        board_from(cells).lever_hazard.contains_key(c),
        board_from(cells).lever_hazard[c] == q,
{
    let x = choose|x: Pos| last_lever(cells, c, x);
    assert(last_lever(cells, c, x));
    assert(endangers(cells, x, c) && endangers(cells, q, c));
    crate::posmap::lemma_rank(x);
    crate::posmap::lemma_rank(q);
}

impl Wires {
    fn empty() -> (w: Wires)
        ensures
            w@ == board_from(Map::empty()),
    {
        let w = Wires {
            history: PosMap::new(),
            owner: PosMap::new(),
            blocked: PosMap::new(),
            reserved: PosMap::new(),
            lever_hazard: PosMap::new(),
            active_endpoints: PosMap::new(),
            claimed: PosMap::new(),
            scratch: PosMap::new(),
        };
        let ghost b = board_from(Map::<Pos, Block>::empty());
        assert(w@.owner =~= b.owner);
        assert(w@.blocked =~= b.blocked);
        assert(w@.lever_hazard =~= b.lever_hazard);
        assert(w@.active_endpoints =~= b.active_endpoints);
        assert(w@.claimed =~= b.claimed);
        assert(w@.scratch =~= b.scratch);
        w
    }

    /// Take note of the block at `p`, which comes after all those noted so far.
    fn note(&mut self, p: Pos, b: Block, Ghost(cells): Ghost<Map<Pos, Block>>)
        requires
            old(self)@ == board_from(cells),
            comes_last(cells, p),
            levers_end(cells),
            roomy(p),
        ensures
            final(self)@ == board_from(cells.insert(p, b)),
            levers_end(cells.insert(p, b)),
    {
        let ghost next = cells.insert(p, b);
        let ghost goal = board_from(next);
        let ghost was = board_from(cells);
        proof {
            assert(!cells.contains_key(p));
            assert forall|q: Pos| q != p implies #[trigger] block_at(next, q) == block_at(cells, q) by {}
        }
        if b != Block::Air {
            self.blocked.insert(p, true);
        }
        match b {
            Block::Lever { face, facing, .. } => {
                // A lever energises every dust cell orthogonally beside it, so no
                // wire may *occupy* one of those cells.
                self.blocked.insert(offset(p, Dir::North), true);
                self.blocked.insert(offset(p, Dir::South), true);
                self.blocked.insert(offset(p, Dir::West), true);
                self.blocked.insert(offset(p, Dir::East), true);
                // The block the lever is attached to is *strongly* powered
                // whenever the lever is on, and a strongly powered block
                // energises every dust cell beside it. These cells cannot simply
                // be blocked: the lever's *own* net legitimately descends right
                // past its support.
                let support = match face {
                    Face::Floor => down(p),
                    Face::Ceiling => up(p),
                    Face::Wall => offset(p, facing.opposite()),
                };
                self.endanger(p, offset(support, Dir::North));
                self.endanger(p, offset(support, Dir::South));
                self.endanger(p, offset(support, Dir::West));
                self.endanger(p, offset(support, Dir::East));
                self.endanger(p, down(support));
                proof {
                    assert(support == lever_support(b, p));
                    assert forall|c: Pos| #[trigger] self@.lever_hazard.contains_key(c)
                        == was.lever_hazard.contains_key(c) || (ring(support).contains(c) && c != p) by {
                        lemma_ring(support, c);
                    }
                }
            },
            Block::Dust { .. } => {
                // Give existing dust an owner so keepout keeps routes away from
                // it. `claim` overrides this for cell outputs and feed stubs,
                // which routes are supposed to attach to.
                self.owner.insert(p, PREPLACED);
                // Dust needs a full block under it. Block that cell even when it
                // is currently empty, or a route is free to run through it and
                // leave a repeater there - and dust resting on a repeater has no
                // support, so in game it pops off the moment it is placed.
                self.blocked.insert(down(p), true);
            },
            _ => {},
        }
        proof {
            assert(self@.owner =~= goal.owner);
            assert forall|q: Pos| #[trigger] self@.blocked.contains(q) == goal.blocked.contains(q) by {
                lemma_blocked_step(cells, p, b, q);
            }
            assert(self@.blocked =~= goal.blocked);
            assert forall|c: Pos| #[trigger] self@.lever_hazard.dom().contains(c) == goal.lever_hazard.dom().contains(c) by {
                lemma_hazard_step(cells, p, b, c);
                if b is Lever {
                    lemma_ring(lever_support(b, p), c);
                }
            }
            assert forall|c: Pos| #[trigger] self@.lever_hazard.dom().contains(c) implies self@.lever_hazard[c]
                == goal.lever_hazard[c] by {
                lemma_hazard_step(cells, p, b, c);
                if b is Lever {
                    lemma_ring(lever_support(b, p), c);
                }
            }
            assert(self@.lever_hazard =~= goal.lever_hazard);
            assert forall|c: Pos| #[trigger] levers_end_at(next, c) by {
                lemma_hazard_step(cells, p, b, c);
            }
        }
    }

    /// The lever at `p` endangers `c`.
    fn endanger(&mut self, p: Pos, c: Pos)
        ensures
            final(self)@ == (Board {
                lever_hazard: if c == p {
                    old(self)@.lever_hazard
                } else {
                    old(self)@.lever_hazard.insert(c, p)
                },
                ..old(self)@
            }),
    {
        if c.0 != p.0 || c.1 != p.1 || c.2 != p.2 {
            self.lever_hazard.insert(c, p);
        }
    }
}

proof fn lemma_ring(p: Pos, c: Pos)
    ensures
        ring(p).contains(c) == (c == beside(p, Dir::North) || c == beside(p, Dir::South) || c == beside(
            p,
            Dir::West,
        ) || c == beside(p, Dir::East) || c == below(p)),
{
    let r = ring(p);
    assert(r[0] == beside(p, Dir::North));
    assert(r[1] == beside(p, Dir::South));
    assert(r[2] == beside(p, Dir::West));
    assert(r[3] == beside(p, Dir::East));
    assert(r[4] == below(p));
}

proof fn lemma_blocked_step(cells: Map<Pos, Block>, p: Pos, b: Block, q: Pos)
    requires
        !cells.contains_key(p),
    ensures
        board_from(cells.insert(p, b)).blocked.contains(q) == (board_from(cells).blocked.contains(q)
            || (b != Block::Air && q == p) || (b is Lever && (q == beside(p, Dir::North) || q == beside(
            p,
            Dir::South,
        ) || q == beside(p, Dir::West) || q == beside(p, Dir::East))) || (is_dust(b) && q == below(p))),
{
    let next = cells.insert(p, b);
    assert forall|x: Pos| x != p implies #[trigger] block_at(next, x) == block_at(cells, x) by {}
    assert(block_at(cells, p) == Block::Air);
    assert(block_at(next, p) == b);
    if beside_lever(cells, q) {
        let (x, d) = choose|x: Pos, d: Dir| #[trigger] beside(x, d) == q && block_at(cells, x) is Lever;
        assert(beside(x, d) == q && block_at(next, x) is Lever);
    }
    if under_dust(cells, q) {
        let x = choose|x: Pos| #[trigger] below(x) == q && is_dust(block_at(cells, x));
        assert(below(x) == q && is_dust(block_at(next, x)));
    }
    if beside_lever(next, q) && !beside_lever(cells, q) {
        let (x, d) = choose|x: Pos, d: Dir| #[trigger] beside(x, d) == q && block_at(next, x) is Lever;
        if x != p {
            assert(beside(x, d) == q && block_at(cells, x) is Lever);
        }
        assert(d is North || d is South || d is West || d is East);
    }
    if under_dust(next, q) && !under_dust(cells, q) {
        let x = choose|x: Pos| #[trigger] below(x) == q && is_dust(block_at(next, x));
        if x != p {
            assert(below(x) == q && is_dust(block_at(cells, x)));
        }
    }
    if b is Lever {
        assert(beside(p, Dir::North) == q ==> beside_lever(next, q));
        assert(beside(p, Dir::South) == q ==> beside_lever(next, q));
        assert(beside(p, Dir::West) == q ==> beside_lever(next, q));
        assert(beside(p, Dir::East) == q ==> beside_lever(next, q));
    }
    if is_dust(b) {
        assert(below(p) == q ==> under_dust(next, q));
    }
}

proof fn lemma_hazard_step(cells: Map<Pos, Block>, p: Pos, b: Block, c: Pos)
    requires
        comes_last(cells, p),
        levers_end(cells),
    ensures
        levers_end_at(cells.insert(p, b), c),
        ({
            let was = board_from(cells).lever_hazard;
            let now = board_from(cells.insert(p, b)).lever_hazard;
            let new = b is Lever && ring(lever_support(b, p)).contains(c) && c != p;
            &&& now.contains_key(c) == (was.contains_key(c) || new)
            &&& new ==> now[c] == p
            &&& !new && was.contains_key(c) ==> now[c] == was[c]
        }),
{
    let next = cells.insert(p, b);
    let was = board_from(cells).lever_hazard;
    let now = board_from(next).lever_hazard;
    let new = b is Lever && ring(lever_support(b, p)).contains(c) && c != p;
    assert(levers_end_at(cells, c));
    assert(!cells.contains_key(p));
    assert forall|x: Pos| #[trigger] endangers(next, x, c) == (endangers(cells, x, c) || (x == p && new)) by {
        if x == p {
            assert(block_at(cells, p) == Block::Air);
        } else {
            assert(block_at(next, x) == block_at(cells, x));
        }
    }
    if new {
        assert(endangers(next, p, c));
        assert forall|x: Pos| #[trigger] endangers(next, x, c) implies layer_rank(x) <= layer_rank(p) by {
            if x != p {
                assert(cells.contains_key(x));
            }
        }
        assert(last_lever(next, c, p));
        lemma_hazard_value(next, c, p);
    } else {
        if exists|q: Pos| endangers(cells, q, c) {
            let q = choose|q: Pos| endangers(cells, q, c);
            assert(endangers(next, q, c));
        }
        if exists|q: Pos| endangers(next, q, c) {
            let q = choose|q: Pos| endangers(next, q, c);
            assert(endangers(cells, q, c));
        }
        if was.contains_key(c) {
            let q = choose|q: Pos| last_lever(cells, c, q);
            assert(last_lever(cells, c, q));
            assert forall|x: Pos| #[trigger] endangers(next, x, c) implies layer_rank(x) <= layer_rank(q) by {
                assert(endangers(cells, x, c));
            }
            assert(last_lever(next, c, q));
            lemma_hazard_value(cells, c, q);
            lemma_hazard_value(next, c, q);
        }
    }
}

impl View for Router {
    type V = Board;

    open spec fn view(&self) -> Board {
        self.wires@
    }
}

/// How many of the first `n` positions a dust step from `c`, other than `skip`,
/// could take a node of `net`.
pub open spec fn open_steps(
    b: Board,
    cells: Map<Pos, Block>,
    c: Pos,
    skip: Option<Pos>,
    net: NetId,
    n: nat,
) -> nat
    decreases n,
{
    if n == 0 {
        0
    } else {
        let q = steps_from(c)[n - 1].0;
        open_steps(b, cells, c, skip, net, (n - 1) as nat) + if Some(q) != skip && placeable(
            b,
            cells,
            q,
            net,
        ) {
            1nat
        } else {
            0nat
        }
    }
}

/// The two ends of a relay at `pos`.
pub open spec fn relay_in(pos: Pos) -> Pos {
    (pos.0, pos.1, (pos.2 - 1) as i32)
}

pub open spec fn relay_out(pos: Pos) -> Pos {
    (pos.0, pos.1, (pos.2 + 1) as i32)
}

/// The open ways past the ends of a relay.
pub open spec fn relay_room_in(b: Board, cells: Map<Pos, Block>, pos: Pos, net: NetId) -> nat {
    open_steps(b, cells, relay_in(pos), Some(pos), net, 12)
}

pub open spec fn relay_room_out(b: Board, cells: Map<Pos, Block>, pos: Pos, net: NetId) -> nat {
    open_steps(b, cells, relay_out(pos), Some(pos), net, 12)
}

/// `net` can stamp a relay (dust, repeater, dust along +Z) at `pos`: the dust ends
/// meet the rule for wires, the repeater's cell is free with nothing foreign beside
/// it, and the signal can arrive and leave.
pub open spec fn relay_clear(b: Board, cells: Map<Pos, Block>, pos: Pos, net: NetId) -> bool {
    &&& placeable(b, cells, relay_in(pos), net)
    &&& placeable(b, cells, relay_out(pos), net)
    &&& !b.blocked.contains(pos)
    &&& !b.scratch.contains(pos)
    &&& free(cells, pos)
    &&& !reserved_for_other(b, pos, net)
    &&& forall|i: int| 0 <= i < 12 ==> !owned_by_other(b, (#[trigger] steps_from(pos)[i]).0, net)
    &&& relay_room_out(b, cells, pos, net) >= 2
    &&& relay_room_in(b, cells, pos, net) >= 2
}

/// Coordinates with room for a relay and all that it could touch.
pub open spec fn spacious(p: Pos) -> bool {
    &&& i32::MIN + 8 < p.0 < i32::MAX - 8
    &&& i32::MIN + 8 < p.1 < i32::MAX - 8
    &&& i32::MIN + 8 < p.2 < i32::MAX - 8
}

/// The sum of the distances along the axes.
pub open spec fn distance(a: Pos, b: Pos) -> int {
    abs(a.0 - b.0) + abs(a.1 - b.1) + abs(a.2 - b.2)
}

pub open spec fn abs(i: int) -> int {
    if i < 0 {
        -i
    } else {
        i
    }
}

/// Division that drops the fraction.
pub open spec fn quotient(a: int, b: int) -> int {
    if a < 0 {
        -((-a) / b)
    } else {
        a / b
    }
}

/// `net` has wire at distance `d` of `p`, and none nearer.
pub open spec fn nearest(b: Board, p: Pos, net: NetId, d: int) -> bool {
    &&& exists|c: Pos| #[trigger] b.owner.contains_key(c) && b.owner[c] == net && distance(c, p) == d
    &&& forall|c: Pos| #[trigger] b.owner.contains_key(c) && b.owner[c] == net ==> distance(c, p) >= d
}

/// `net` has wire within `r` of `p`.
pub open spec fn crowds(b: Board, p: Pos, r: int, net: NetId) -> bool {
    exists|c: Pos| #[trigger] b.owner.contains_key(c) && b.owner[c] == net && distance(c, p) <= r
}

/// `x` comes before `y`: it is nearer to `p`, or as near and of a lower number.
pub open spec fn crowds_before(b: Board, p: Pos, x: NetId, y: NetId) -> bool {
    exists|d: int, e: int| #[trigger] nearest(b, p, x, d) && #[trigger] nearest(b, p, y, e) && (d < e || (d
        == e && x < y))
}

/// What is added to the charge of a cell at distance `d` of a failure.
pub open spec fn charge(radius: int, weight: int, d: int) -> int {
    quotient(weight * (radius - d + 1), radius + 1)
}

pub open spec fn charged(b: Board, centre: Pos, radius: int, weight: int) -> Map<Pos, i32> {
    Map::new(
        |p: Pos| b.history.contains_key(p) || distance(p, centre) <= radius,
        |p: Pos|
            {
                let before = if b.history.contains_key(p) {
                    b.history[p] as int
                } else {
                    0
                };
                if distance(p, centre) <= radius {
                    (before + charge(radius, weight, distance(p, centre))) as i32
                } else {
                    b.history[p]
                }
            },
    )
}

/// The cells that `net` has routed: its own, less the endpoints.
pub open spec fn routed(b: Board, net: NetId, p: Pos) -> bool {
    b.owner.contains_key(p) && b.owner[p] == net && !b.claimed.contains(p)
}

fn magnitude(a: i32, b: i32) -> (n: i64)
    ensures
        n == abs(a - b),
{
    let d: i64 = a as i64 - b as i64;
    if d < 0 {
        -d
    } else {
        d
    }
}

fn span(a: Pos, b: Pos) -> (n: i64)
    ensures
        n == distance(a, b),
        0 <= n < 0x4_0000_0000,
{
    magnitude(a.0, b.0) + magnitude(a.1, b.1) + magnitude(a.2, b.2)
}

/// The positions one dust step from `p`.
pub fn steps(p: Pos) -> (r: Vec<(Pos, u8)>)
    requires
        interior(p),
    ensures
        r@ == steps_from(p),
{
    let mut r: Vec<(Pos, u8)> = Vec::new();
    let n = offset(p, Dir::North);
    r.push((n, 0));
    r.push((up(n), 0));
    r.push((down(n), 0));
    let s = offset(p, Dir::South);
    r.push((s, 1));
    r.push((up(s), 1));
    r.push((down(s), 1));
    let w = offset(p, Dir::West);
    r.push((w, 2));
    r.push((up(w), 2));
    r.push((down(w), 2));
    let e = offset(p, Dir::East);
    r.push((e, 3));
    r.push((up(e), 3));
    r.push((down(e), 3));
    assert(r@ =~= steps_from(p));
    r
}

fn same(a: Pos, b: Pos) -> (r: bool)
    ensures
        r == (a == b),
{
    a.0 == b.0 && a.1 == b.1 && a.2 == b.2
}

impl Wires {
    /// How many positions a dust step from `c`, other than `skip`, are open.
    fn open_count(&self, grid: &Grid, c: Pos, skip: Option<Pos>, net: NetId) -> (n: usize)
        requires
            i32::MIN + 5 < c.0 < i32::MAX - 5,
            i32::MIN + 5 < c.1 < i32::MAX - 5,
            i32::MIN + 5 < c.2 < i32::MAX - 5,
            levers_inside(self@),
        ensures
            n == open_steps(self@, grid@, c, skip, net, 12),
            n <= 12,
    {
        let ps = steps(c);
        let mut n: usize = 0;
        for i in 0..12usize
            invariant
                i32::MIN + 5 < c.0 < i32::MAX - 5,
                i32::MIN + 5 < c.1 < i32::MAX - 5,
                i32::MIN + 5 < c.2 < i32::MAX - 5,
                levers_inside(self@),
                ps@ == steps_from(c),
                n <= i,
                n == open_steps(self@, grid@, c, skip, net, i as nat),
        {
            let q: Pos = ps[i].0;
            let skipped = match skip {
                Some(s) => same(q, s),
                None => false,
            };
            assert(q == steps_from(c)[i as int].0);
            if !skipped && self.placeable(grid, q, net) {
                n = n + 1;
            }
        }
        n
    }
}

impl Router {
    /// Seed the router from a grid that already contains placed cells.
    ///
    /// Everything present becomes an obstacle. Existing dust is additionally
    /// attributed to [`PREPLACED`] so that keepout applies to it: a route
    /// allowed to run alongside a gate's input pad would short into that gate.
    pub fn from_grid(grid: &Grid) -> (r: Router)
        requires
            all_roomy(grid@),
        ensures
            r@ == board_from(grid@),
            levers_inside(r@),
            r.max_expansions == 250_000,
            r.tuning == usual_tuning(),
    {
        let mut wires = Wires::empty();
        let cells = grid.iter();
        let ghost order = cells@.map_values(|c: (Pos, Block)| c.0);
        let ghost mut seen: Map<Pos, Block> = Map::empty();
        for i in 0..cells.len()
            invariant
                all_roomy(grid@),
                order == cells@.map_values(|c: (Pos, Block)| c.0),
                crate::posmap::by_layer(order),
                forall|j: int|
                    0 <= j < cells@.len() ==> grid@.contains_key((#[trigger] cells@[j]).0)
                        && cells@[j].1 == grid@[cells@[j].0],
                wires@ == board_from(seen),
                levers_end(seen),
                forall|j: int| 0 <= j < i ==> seen.contains_key(#[trigger] order[j]),
                forall|p: Pos| #[trigger]
                    seen.contains_key(p) ==> grid@.contains_key(p) && seen[p] == grid@[p]
                        && exists|j: int| 0 <= j < i && #[trigger] order[j] == p,
        {
            let (p, b) = cells[i];
            assert(grid@.contains_key(cells@[i as int].0));
            assert(order[i as int] == p);
            assert(comes_last(seen, p)) by {
                assert forall|q: Pos| #[trigger] seen.contains_key(q) implies layer_rank(q) < layer_rank(p) by {
                    let j = choose|j: int| 0 <= j < i && #[trigger] order[j] == q;
                    assert(layer_rank(order[j]) < layer_rank(order[i as int]));
                }
            }
            wires.note(p, b, Ghost(seen));
            proof {
                seen = seen.insert(p, b);
            }
        }
        proof {
            assert forall|p: Pos| #[trigger] grid@.contains_key(p) implies seen.contains_key(p) by {
                let j = choose|j: int| 0 <= j < cells@.len() && cells@[j] == (p, block_at(grid@, p));
                assert(seen.contains_key(order[j]));
            }
            assert(seen =~= grid@);
            assert forall|q: Pos| #[trigger] wires@.lever_hazard.contains_key(q) implies interior(
                wires@.lever_hazard[q],
            ) by {
                assert(levers_end_at(seen, q));
                let x = choose|x: Pos| last_lever(seen, q, x);
                lemma_hazard_value(seen, q, x);
                assert(grid@.contains_key(x));
            }
        }
        Router { wires, max_expansions: 250_000, tuning: Tuning::usual() }
    }

    /// Which net owns each placed dust cell.
    ///
    /// Exposed so an audit can ask the one question keepout cannot answer from
    /// the grid alone: are two *different* nets electrically adjacent? Dust
    /// joins to dust, so two legs that merely pass close are one net in game.
    pub fn owners(&self) -> (r: &PosMap<NetId>)
        ensures
            r@ == self@.owner,
    {
        &self.wires.owner
    }

    /// Give up the board for its wires.
    pub fn into_owners(self) -> (r: PosMap<NetId>)
        ensures
            r@ == self@.owner,
    {
        self.wires.owner
    }

    /// Set `p` aside so only `net` may route through it. The first to ask has it.
    pub fn reserve(&mut self, p: Pos, net: NetId)
        ensures
            final(self)@ == (Board {
                reserved: if old(self)@.reserved.contains_key(p) {
                    old(self)@.reserved
                } else {
                    old(self)@.reserved.insert(p, net)
                },
                ..old(self)@
            }),
            final(self).max_expansions == old(self).max_expansions,
            final(self).tuning == old(self).tuning,
    {
        if !self.wires.reserved.contains(p) {
            self.wires.reserved.insert(p, net);
        }
    }

    /// Can `net` stamp a relay (dust, repeater, dust along +Z) at `pos`?
    ///
    /// Relays are placed directly, not routed, so nothing else ever asks whether
    /// the site is clear. The signal has to be able to leave *and* to arrive: a site
    /// whose own three cells are clear can still be walled in just past either end.
    pub fn relay_site_clear(&self, grid: &Grid, pos: Pos, net: NetId) -> (r: bool)
        requires
            spacious(pos),
            levers_inside(self@),
        ensures
            r == relay_clear(self@, grid@, pos, net),
    {
        let w = &self.wires;
        let inp: Pos = (pos.0, pos.1, pos.2 - 1);
        let out: Pos = (pos.0, pos.1, pos.2 + 1);
        // The dust ends get the full wire-placement rule.
        if !w.placeable(grid, inp, net) || !w.placeable(grid, out, net) {
            return false;
        }
        // The repeater cell: free, not reserved, and nothing foreign beside it.
        if w.blocked.contains(pos) || w.scratch.contains(pos) || !grid.is_free(pos) {
            return false;
        }
        if w.reserved_for_other(pos, net) {
            return false;
        }
        let ps = steps(pos);
        for i in 0..12usize
            invariant
                w == &self.wires,
                ps@ == steps_from(pos),
                forall|j: int| 0 <= j < i ==> !owned_by_other(self@, (#[trigger] steps_from(pos)[j]).0, net),
        {
            if w.owned_by_other(ps[i].0, net) {
                assert(owned_by_other(self@, steps_from(pos)[i as int].0, net));
                return false;
            }
        }
        w.open_count(grid, out, Some(pos), net) >= 2 && w.open_count(grid, inp, Some(pos), net) >= 2
    }

    /// How much elbow room a relay site has, or `None` if it is not usable at
    /// all.
    ///
    /// [`Self::relay_site_clear`] answers yes-or-no, and taking the first yes is
    /// how chains strangle each other: a site with the bare minimum of two
    /// approaches is fine until the route *into* it uses one of them, and then
    /// the next stage has nowhere to start. The caller can compare candidates
    /// instead of accepting the first.
    pub fn relay_site_room(&self, grid: &Grid, pos: Pos, net: NetId) -> (r: Option<usize>)
        requires
            spacious(pos),
            levers_inside(self@),
        ensures
            match r {
                Some(n) => relay_clear(self@, grid@, pos, net) && n == relay_room(self@, grid@, pos, net),
                None => !relay_clear(self@, grid@, pos, net),
            },
    {
        if !self.relay_site_clear(grid, pos, net) {
            return None;
        }
        let a: usize = self.wires.open_count(grid, (pos.0, pos.1, pos.2 - 1), Some(pos), net);
        let b: usize = self.wires.open_count(grid, (pos.0, pos.1, pos.2 + 1), Some(pos), net);
        if a < b {
            Some(a)
        } else {
            Some(b)
        }
    }

    /// Remove everything `net` routed, freeing the space for someone else.
    ///
    /// Endpoints stay: gate outputs, feed stubs and relay ends are structure,
    /// not routing, and the connection will want them again when it is redone.
    /// Returns the cells released.
    pub fn rip(&mut self, grid: &mut Grid, net: NetId) -> (r: Vec<Pos>)
        ensures
            r@.no_duplicates(),
            forall|p: Pos| #[trigger] r@.contains(p) <==> routed(old(self)@, net, p),
            final(self)@ == ripped(old(self)@, net),
            final(grid)@ == old(grid)@.remove_keys(Set::new(|p: Pos| routed(old(self)@, net, p))),
            final(self).max_expansions == old(self).max_expansions,
            final(self).tuning == old(self).tuning,
    {
        let ps = self.wires.owner.positions();
        let ghost before = self@;
        let ghost cells = grid@;
        let mut doomed: Vec<Pos> = Vec::new();
        for i in 0..ps.len()
            invariant
                self@ == before,
                ps@.no_duplicates(),
                doomed@.no_duplicates(),
                forall|p: Pos| #[trigger]
                    doomed@.contains(p) <==> ps@.take(i as int).contains(p) && routed(before, net, p),
        {
            let p: Pos = ps[i];
            proof {
                assert(ps@.take(i + 1) =~= ps@.take(i as int).push(p));
                crate::redstone::lemma_contains_push(ps@.take(i as int), p);
                crate::redstone::lemma_contains_push(doomed@, p);
                assert(!ps@.take(i as int).contains(p));
            }
            if self.wires.owned_by(p, net) && !self.wires.claimed.contains(p) {
                doomed.push(p);
            }
        }
        proof {
            assert(ps@.take(ps@.len() as int) =~= ps@);
            assert forall|p: Pos| #[trigger] doomed@.contains(p) <==> routed(before, net, p) by {
                assert(before.owner.contains_key(p) <==> ps@.contains(p));
            }
        }
        let ghost all = doomed@;
        proof {
            let none = all.take(0).to_set();
            assert(none =~= Set::empty());
            assert(before.owner =~= without(before, none).owner);
            assert(before.blocked =~= without(before, none).blocked);
            assert(cells =~= cells.remove_keys(none));
        }
        for i in 0..doomed.len()
            invariant
                all == doomed@,
                before == old(self)@,
                self.max_expansions == old(self).max_expansions,
                self.tuning == old(self).tuning,
                self@ == without(before, all.take(i as int).to_set()),
                grid@ == cells.remove_keys(all.take(i as int).to_set()),
        {
            let p: Pos = doomed[i];
            let ghost part = all.take(i as int);
            self.wires.owner.remove(p);
            grid.clear(p);
            self.wires.blocked.remove(p);
            proof {
                assert(all.take(i + 1) =~= part.push(p));
                crate::redstone::lemma_contains_push(part, p);
                let next = all.take(i + 1).to_set();
                assert(self@.owner =~= without(before, next).owner);
                assert(self@.blocked =~= without(before, next).blocked);
                assert(grid@ =~= cells.remove_keys(next));
            }
        }
        proof {
            assert(all.take(all.len() as int) =~= all);
            assert(all.to_set() =~= Set::new(|p: Pos| routed(before, net, p)));
        }
        doomed
    }

    /// Nets with wire within `r` of `p`, nearest first. These are the ones
    /// worth ripping when a route cannot reach `p`.
    pub fn crowders(&self, p: Pos, r: i32, exclude: NetId) -> (out: Vec<NetId>)
        ensures
            out@.no_duplicates(),
            forall|n: NetId| #[trigger]
                out@.contains(n) <==> n != exclude && n != PREPLACED && crowds(self@, p, r as int, n),
            forall|i: int, j: int|
                0 <= i < j < out@.len() ==> crowds_before(self@, p, #[trigger] out@[i], #[trigger] out@[j]),
    {
        let ps = self.wires.owner.positions();
        let mut keys: Vec<u128> = Vec::new();
        let ghost b = self@;
        for i in 0..ps.len()
            invariant
                b == self@,
                forall|c: Pos| #[trigger] b.owner.contains_key(c) <==> ps@.contains(c),
                forall|k: u128| #[trigger]
                    keys@.contains(k) ==> exists|j: int| 0 <= j < i && crowd_key(b, p, r as int, exclude, #[trigger] ps@[j], k),
                forall|j: int, k: u128|
                    0 <= j < i && #[trigger] crowd_key(b, p, r as int, exclude, ps@[j], k) ==> keys@.contains(k),
        {
            let c: Pos = ps[i];
            assert(ps@.contains(c));
            let ghost had = keys@;
            match self.wires.owner.get(c) {
                Some(o) => {
                    let d: i64 = span(c, p);
                    if *o != exclude && *o != PREPLACED && d <= r as i64 {
                        let k: u128 = d as u128 * 0x1_0000_0000 + *o as u128;
                        proof {
                            assert(crowd_key(b, p, r as int, exclude, ps@[i as int], k));
                        }
                        keys.push(k);
                    }
                },
                None => {},
            }
            proof {
                assert forall|k: u128| had.contains(k) implies #[trigger] keys@.contains(k) by {
                    let x = choose|x: int| 0 <= x < had.len() && had[x] == k;
                    assert(keys@[x] == k);
                }
                assert forall|k: u128| #[trigger] keys@.contains(k) implies exists|j: int|
                    0 <= j < i + 1 && crowd_key(b, p, r as int, exclude, #[trigger] ps@[j], k) by {
                    if had.contains(k) {
                        let j = choose|j: int| 0 <= j < i && crowd_key(b, p, r as int, exclude, #[trigger] ps@[j], k);
                        assert(crowd_key(b, p, r as int, exclude, ps@[j], k));
                    } else {
                        assert(crowd_key(b, p, r as int, exclude, ps@[i as int], k));
                    }
                }
                assert forall|k: u128| #[trigger] crowd_key(b, p, r as int, exclude, ps@[i as int], k) implies keys@.contains(k) by {
                    assert(keys@[keys@.len() - 1] == k);
                }
            }
        }
        let order = sorted(&keys);
        proof {
            assert forall|k: u128| #[trigger] order@.contains(k) <==> keys@.contains(k) by {
                assert(order@.to_set().contains(k) == keys@.to_set().contains(k));
            }
            assert forall|k: u128| #[trigger] order@.contains(k) <==> exists|c: Pos| crowd_key(b, p, r as int, exclude, c, k) by {
                if keys@.contains(k) {
                    let j = choose|j: int| 0 <= j < ps@.len() && crowd_key(b, p, r as int, exclude, #[trigger] ps@[j], k);
                    assert(crowd_key(b, p, r as int, exclude, ps@[j], k));
                }
                if exists|c: Pos| crowd_key(b, p, r as int, exclude, c, k) {
                    let c = choose|c: Pos| crowd_key(b, p, r as int, exclude, c, k);
                    assert(ps@.contains(c));
                    let j = choose|j: int| 0 <= j < ps@.len() && ps@[j] == c;
                    assert(crowd_key(b, p, r as int, exclude, ps@[j], k));
                }
            }
        }
        dedup_nets(&order, Ghost(b), Ghost(p), Ghost(r as int), Ghost(exclude))
    }

    /// Charge a neighbourhood for having failed to admit a route.
    ///
    /// Called between passes, on the target and sources of a connection that
    /// could not be placed. The penalty decays with distance so the blame
    /// falls hardest where the search actually stalled.
    pub fn blame(&mut self, centre: Pos, radius: i32, weight: i32)
        requires
            can_charge(old(self)@, centre, radius as int, weight as int),
        ensures
            final(self)@ == (Board {
                history: charged(old(self)@, centre, radius as int, weight as int),
                ..old(self)@
            }),
            final(self).max_expansions == old(self).max_expansions,
            final(self).tuning == old(self).tuning,
    {
        let ghost b = self@;
        let ghost all = charged(b, centre, radius as int, weight as int);
        if radius < 0 {
            assert(all =~= b.history);
            return;
        }
        assert(charged_until(b, centre, radius as int, weight as int, -radius, -radius, -radius) =~= b.history);
        for dx in -radius..radius + 1
            invariant
                can_charge(b, centre, radius as int, weight as int),
                radius >= 0,
                self@ == (Board {
                    history: charged_until(b, centre, radius as int, weight as int, dx as int, -radius, -radius),
                    ..b
                }),
                self.max_expansions == old(self).max_expansions,
                self.tuning == old(self).tuning,
        {
            for dy in -radius..radius + 1
                invariant
                    can_charge(b, centre, radius as int, weight as int),
                    radius >= 0,
                    -radius <= dx <= radius,
                    self@ == (Board {
                        history: charged_until(b, centre, radius as int, weight as int, dx as int, dy as int, -radius),
                        ..b
                    }),
                    self.max_expansions == old(self).max_expansions,
                    self.tuning == old(self).tuning,
            {
                for dz in -radius..radius + 1
                    invariant
                        can_charge(b, centre, radius as int, weight as int),
                        radius >= 0,
                        -radius <= dx <= radius,
                        -radius <= dy <= radius,
                        self@ == (Board {
                            history: charged_until(b, centre, radius as int, weight as int, dx as int, dy as int, dz as int),
                            ..b
                        }),
                        self.max_expansions == old(self).max_expansions,
                        self.tuning == old(self).tuning,
                {
                    let p: Pos = (centre.0 + dx, centre.1 + dy, centre.2 + dz);
                    let d: i64 = span(p, centre);
                    if d <= radius as i64 {
                        let before: i32 = match self.wires.history.get(p) {
                            Some(v) => *v,
                            None => 0,
                        };
                        let share: i64 = radius as i64 - d + 1;
                        proof {
                            lemma_charge(radius as int, weight as int, d as int);
                            assert(before == if b.history.contains_key(p) { b.history[p] as int } else { 0 });
                        }
                        let product: i64 = weight as i64 * share;
                        let add: i64 = if product < 0 {
                            -((-product) / (radius as i64 + 1))
                        } else {
                            product / (radius as i64 + 1)
                        };
                        assert(add == charge(radius as int, weight as int, d as int));
                        self.wires.history.insert(p, (before as i64 + add) as i32);
                    }
                    assert(self@.history =~= charged_until(b, centre, radius as int, weight as int, dx as int, dy as int, dz + 1));
                }
                assert(charged_until(b, centre, radius as int, weight as int, dx as int, dy as int, radius + 1)
                    =~= charged_until(b, centre, radius as int, weight as int, dx as int, dy + 1, -radius));
            }
            assert(charged_until(b, centre, radius as int, weight as int, dx as int, radius + 1, -radius)
                =~= charged_until(b, centre, radius as int, weight as int, dx + 1, -radius, -radius));
        }
        assert(charged_until(b, centre, radius as int, weight as int, radius + 1, -radius, -radius) =~= all);
    }

    /// Carry accumulated contention into a fresh router for the next pass.
    pub fn inherit_history(&mut self, from: &Router)
        ensures
            final(self)@ == (Board { history: from@.history, ..old(self)@ }),
            final(self).max_expansions == old(self).max_expansions,
            final(self).tuning == old(self).tuning,
    {
        let ps = from.wires.history.positions();
        let mut h: PosMap<i32> = PosMap::new();
        for i in 0..ps.len()
            invariant
                forall|p: Pos| #[trigger] from@.history.contains_key(p) <==> ps@.contains(p),
                forall|p: Pos| #[trigger] h@.contains_key(p) ==> from@.history.contains_key(p) && h@[p] == from@.history[p],
                forall|j: int| 0 <= j < i ==> h@.contains_key(#[trigger] ps@[j]),
        {
            let p: Pos = ps[i];
            assert(ps@.contains(p));
            assert(from@.history.contains_key(p));
            match from.wires.history.get(p) {
                Some(v) => {
                    h.insert(p, *v);
                },
                None => {},
            }
        }
        proof {
            assert forall|p: Pos| #[trigger] from@.history.contains_key(p) implies h@.contains_key(p) by {
                assert(ps@.contains(p));
                let j = choose|j: int| 0 <= j < ps@.len() && ps@[j] == p;
                assert(h@.contains_key(ps@[j]));
            }
            assert(h@ =~= from@.history);
        }
        self.wires.history = h;
    }

    pub fn history_len(&self) -> (n: usize)
        ensures
            self@.history.dom().finite(),
            n == self@.history.dom().len(),
    {
        self.wires.history.len()
    }

    /// Forbid any route from using `p`.
    pub fn block(&mut self, p: Pos)
        ensures
            final(self)@ == (Board { blocked: old(self)@.blocked.insert(p), ..old(self)@ }),
            final(self).max_expansions == old(self).max_expansions,
            final(self).tuning == old(self).tuning,
    {
        self.wires.blocked.insert(p, true);
        assert(self@.blocked =~= old(self)@.blocked.insert(p));
    }

    /// Declare that the dust at `p` belongs to `net` (e.g. a cell's output or
    /// an input feed), so routes for that net may attach to it.
    pub fn claim(&mut self, p: Pos, net: NetId)
        ensures
            final(self)@ == claimed_by(old(self)@, p, net),
            final(self).max_expansions == old(self).max_expansions,
            final(self).tuning == old(self).tuning,
    {
        self.wires.owner.insert(p, net);
        self.wires.claimed.insert(p, true);
        self.wires.blocked.remove(p);
        assert(self@.claimed =~= old(self)@.claimed.insert(p));
        assert(self@.blocked =~= old(self)@.blocked.remove(p));
    }
}

/// The charges can be held: the cells have coordinates that fit, and the sums do
/// not overflow.
pub open spec fn can_charge(b: Board, centre: Pos, radius: int, weight: int) -> bool {
    &&& radius < 0x4000_0000
    &&& i32::MIN + radius <= centre.0 <= i32::MAX - radius
    &&& i32::MIN + radius <= centre.1 <= i32::MAX - radius
    &&& i32::MIN + radius <= centre.2 <= i32::MAX - radius
    &&& abs(weight) <= i32::MAX
    &&& forall|p: Pos| #[trigger]
        b.history.contains_key(p) && distance(p, centre) <= radius ==> i32::MIN + abs(weight)
            <= b.history[p] <= i32::MAX - abs(weight)
}

/// The charges when the cells up to an offset, in order, are done.
spec fn charged_until(b: Board, centre: Pos, radius: int, weight: int, dx: int, dy: int, dz: int) -> Map<Pos, i32> {
    let done = |p: Pos|
        distance(p, centre) <= radius && {
            let (x, y, z) = (p.0 - centre.0, p.1 - centre.1, p.2 - centre.2);
            x < dx || (x == dx && (y < dy || (y == dy && z < dz)))
        };
    Map::new(
        |p: Pos| b.history.contains_key(p) || done(p),
        |p: Pos|
            if done(p) {
                charged(b, centre, radius, weight)[p]
            } else {
                b.history[p]
            },
    )
}

proof fn lemma_charge(radius: int, weight: int, d: int)
    requires
        0 <= d <= radius < 0x4000_0000,
        i32::MIN <= weight <= i32::MAX,
    ensures
        -abs(weight) <= charge(radius, weight, d) <= abs(weight),
        -0x4000_0000_0000_0000 < weight * (radius - d + 1) < 0x4000_0000_0000_0000,
{
    let share = radius - d + 1;
    let w = abs(weight);
    assert(0 <= w * share <= w * (radius + 1)) by (nonlinear_arith)
        requires
            0 <= w,
            0 < share <= radius + 1,
    ;
    assert(w * (radius + 1) <= 0x8000_0000 * 0x4000_0000) by (nonlinear_arith)
        requires
            0 <= w <= 0x8000_0000,
            0 <= radius + 1 <= 0x4000_0000,
    ;
    assert(abs(weight * share) == w * share) by (nonlinear_arith)
        requires
            share > 0,
            w == if weight < 0 { -weight } else { weight },
    ;
    assert(0 <= (w * share) / (radius + 1) <= w) by (nonlinear_arith)
        requires
            0 <= w * share <= w * (radius + 1),
            radius + 1 > 0,
    ;
}

/// The board once the dust at `p` belongs to `net`.
pub open spec fn claimed_by(b: Board, p: Pos, net: NetId) -> Board {
    Board {
        owner: b.owner.insert(p, net),
        claimed: b.claimed.insert(p),
        blocked: b.blocked.remove(p),
        ..b
    }
}

/// The lesser of the ways in and the ways out of a relay.
pub open spec fn relay_room(b: Board, cells: Map<Pos, Block>, pos: Pos, net: NetId) -> nat {
    if relay_room_in(b, cells, pos, net) < relay_room_out(b, cells, pos, net) {
        relay_room_in(b, cells, pos, net)
    } else {
        relay_room_out(b, cells, pos, net)
    }
}

/// The board without the cells in `gone`.
pub open spec fn without(b: Board, gone: Set<Pos>) -> Board {
    Board { owner: b.owner.remove_keys(gone), blocked: b.blocked.difference(gone), ..b }
}

/// The board without what `net` has routed.
pub open spec fn ripped(b: Board, net: NetId) -> Board {
    without(b, Set::new(|p: Pos| routed(b, net, p)))
}

/// The key that wire of some net at `c` sorts by: its distance, then its net.
spec fn crowd_key(b: Board, p: Pos, r: int, exclude: NetId, c: Pos, k: u128) -> bool {
    &&& b.owner.contains_key(c)
    &&& b.owner[c] != exclude
    &&& b.owner[c] != PREPLACED
    &&& distance(c, p) <= r
    &&& k == distance(c, p) * 0x1_0000_0000 + b.owner[c]
}

/// The nets of the keys, each where it first stands.
fn dedup_nets(
    order: &Vec<u128>,
    Ghost(b): Ghost<Board>,
    Ghost(p): Ghost<Pos>,
    Ghost(r): Ghost<int>,
    Ghost(exclude): Ghost<NetId>,
) -> (out: Vec<NetId>)
    requires
        increasing(order@),
        forall|k: u128| #[trigger]
            order@.contains(k) <==> exists|c: Pos| crowd_key(b, p, r, exclude, c, k),
    ensures
        out@.no_duplicates(),
        forall|n: NetId| #[trigger]
            out@.contains(n) <==> n != exclude && n != PREPLACED && crowds(b, p, r, n),
        forall|i: int, j: int|
            0 <= i < j < out@.len() ==> crowds_before(b, p, #[trigger] out@[i], #[trigger] out@[j]),
{
    let mut out: Vec<NetId> = Vec::new();
    let ghost mut first: Seq<int> = Seq::empty();
    for i in 0..order.len()
        invariant
            increasing(order@),
            out@.no_duplicates(),
            first.len() == out@.len(),
            forall|j: int|
                0 <= j < first.len() ==> 0 <= #[trigger] first[j] < i && order@[first[j]] % 0x1_0000_0000
                    == out@[j] && (forall|x: int|
                    0 <= x < first[j] ==> #[trigger] order@[x] % 0x1_0000_0000 != out@[j]),
            forall|x: int|
                0 <= x < i ==> out@.contains((#[trigger] order@[x] % 0x1_0000_0000) as u32),
            forall|j: int, k: int| 0 <= j < k < first.len() ==> first[j] < first[k],
    {
        let n: NetId = (order[i] % 0x1_0000_0000) as u32;
        let mut found = false;
        for j in 0..out.len()
            invariant
                found == out@.take(j as int).contains(n),
        {
            let ghost part = out@.take(j as int);
            if out[j] == n {
                found = true;
            }
            proof {
                let next = out@.take(j + 1);
                assert(next =~= part.push(out@[j as int]));
                lemma_has_push(part, out@[j as int], n);
            }
        }
        assert(out@.take(out@.len() as int) =~= out@);
        let ghost had = out@;
        if !found {
            out.push(n);
            proof {
                first = first.push(i as int);
                assert forall|m: u32| #[trigger] out@.contains(m) == (had.contains(m) || m == n) by {
                    lemma_has_push(had, n, m);
                }
                assert forall|x: int| 0 <= x < i implies #[trigger] order@[x] % 0x1_0000_0000 != n by {
                    assert(had.contains((order@[x] % 0x1_0000_0000) as u32));
                }
            }
        }
    }
    proof {
        assert forall|n: NetId| #[trigger] out@.contains(n) <==> n != exclude && n != PREPLACED && crowds(b, p, r, n) by {
            if out@.contains(n) {
                let j = choose|j: int| 0 <= j < out@.len() && out@[j] == n;
                let k = order@[first[j]];
                assert(order@.contains(k));
                let c = choose|c: Pos| crowd_key(b, p, r, exclude, c, k);
                assert(b.owner.contains_key(c) && b.owner[c] == n);
            }
            if n != exclude && n != PREPLACED && crowds(b, p, r, n) {
                let c = choose|c: Pos| #[trigger] b.owner.contains_key(c) && b.owner[c] == n && distance(c, p) <= r;
                let k = (distance(c, p) * 0x1_0000_0000 + n) as u128;
                assert(crowd_key(b, p, r, exclude, c, k));
                assert(order@.contains(k));
                let x = choose|x: int| 0 <= x < order@.len() && order@[x] == k;
                assert(out@.contains((order@[x] % 0x1_0000_0000) as u32));
            }
        }
        assert forall|i: int, j: int| 0 <= i < j < out@.len() implies crowds_before(
            b,
            p,
            #[trigger] out@[i],
            #[trigger] out@[j],
        ) by {
            lemma_first_nearest(b, p, r, exclude, order@, out@[i], first[i]);
            lemma_first_nearest(b, p, r, exclude, order@, out@[j], first[j]);
            let d = (order@[first[i]] / 0x1_0000_0000) as int;
            let e = (order@[first[j]] / 0x1_0000_0000) as int;
            assert(first[i] < first[j]);
            assert(order@[first[i]] < order@[first[j]]);
            assert(nearest(b, p, out@[i], d) && nearest(b, p, out@[j], e));
        }
    }
    out
}

/// What a list with one more number holds.
pub proof fn lemma_has_push(s: Seq<u32>, n: u32, m: u32)
    ensures
        s.push(n).contains(m) == (s.contains(m) || m == n),
{
    if s.contains(m) {
        let i = choose|i: int| 0 <= i < s.len() && s[i] == m;
        assert(s.push(n)[i] == m);
    }
    assert(s.push(n)[s.len() as int] == n);
}

/// Where a net first stands among the keys, its distance is its least.
proof fn lemma_first_nearest(
    b: Board,
    p: Pos,
    r: int,
    exclude: NetId,
    order: Seq<u128>,
    n: NetId,
    at: int,
)
    requires
        increasing(order),
        forall|k: u128| #[trigger]
            order.contains(k) <==> exists|c: Pos| crowd_key(b, p, r, exclude, c, k),
        0 <= at < order.len(),
        order[at] % 0x1_0000_0000 == n,
        forall|x: int| 0 <= x < at ==> #[trigger] order[x] % 0x1_0000_0000 != n,
    ensures
        nearest(b, p, n, (order[at] / 0x1_0000_0000) as int),
{
    let k = order[at];
    let d = (k / 0x1_0000_0000) as int;
    assert(order.contains(k));
    let c = choose|c: Pos| crowd_key(b, p, r, exclude, c, k);
    assert(b.owner.contains_key(c) && b.owner[c] == n && distance(c, p) == d);
    assert forall|c2: Pos| #[trigger] b.owner.contains_key(c2) && b.owner[c2] == n implies distance(c2, p) >= d by {
        if distance(c2, p) < d {
            let k2 = (distance(c2, p) * 0x1_0000_0000 + n) as u128;
            assert(crowd_key(b, p, r, exclude, c2, k2));
            assert(order.contains(k2));
            let x = choose|x: int| 0 <= x < order.len() && order[x] == k2;
            assert(k2 < k);
            if at <= x {
                assert(at == x || order[at] < order[x]);
            }
            assert(order[x] % 0x1_0000_0000 == n);
        }
    }
}

// --- finding a path ----------------------------------------------------------------------

/// A route that has been found but not yet committed to the grid.
pub struct Path {
    pub nodes: Vec<Pos>,
}

/// What [`Router::find`] is asked.
pub open spec fn job_of(
    b: Board,
    tuning: Tuning,
    cells: Map<Pos, Block>,
    net: NetId,
    sources: Seq<Pos>,
    to: Pos,
    bounds: (Pos, Pos),
    slope_cost: i32,
    weight: i32,
    budget: usize,
) -> Job {
    Job {
        board: b,
        cells,
        net,
        sources,
        to,
        lo: bounds.0,
        hi: bounds.1,
        slope_cost: slope_cost as int,
        weight: weight as int,
        budget: budget as nat,
        slope_floor: tuning.slope_floor as int,
    }
}

/// The executable side of a search: costs and ways by the direction they are
/// entered in.
struct Table {
    best: CostMap,
    came: Vec<PosMap<(Pos, u8)>>,
    open: Heap,
    /// Which positions may be entered, as far as they have been asked after.
    entry: FlagMap,
}

impl Table {
    /// What is noted of the positions that may be entered is right.
    #[verifier::opaque]
    spec fn knows(&self, job: Job) -> bool {
        &&& self.entry.wf()
        &&& forall|q: Pos| #[trigger]
            self.entry.view().contains_key(q) ==> self.entry.view()[q] == enterable(job, q)
    }

    #[verifier::opaque]
    spec fn holds(&self, s: Search) -> bool {
        &&& self.best.wf()
        &&& self.best.view() == s.best
        &&& self.came@.len() == 5
        &&& self.open.wf()
        &&& self.open.view() == s.open
        &&& forall|n: Node| #[trigger]
            s.came.contains_key(n) <==> n.1 < 5 && self.came@[n.1 as int]@.contains_key(n.0)
        &&& forall|n: Node| #[trigger]
            s.came.contains_key(n) ==> s.came[n] == self.came@[n.1 as int]@[n.0]
    }

    fn new(lo: Pos, hi: Pos, Ghost(job): Ghost<Job>) -> (t: Table)
        ensures
            t.holds(unstarted(job)),
            t.knows(job),
    {
        proof {
            reveal(Table::holds);
        }
        let mut came: Vec<PosMap<(Pos, u8)>> = Vec::new();
        for i in 0..5usize
            invariant
                came@.len() == i,
                forall|j: int| 0 <= j < i ==> (#[trigger] came@[j])@ == Map::<Pos, (Pos, u8)>::empty(),
        {
            came.push(PosMap::new());
        }
        proof {
            reveal(Table::knows);
        }
        Table { best: CostMap::new(lo, hi), came, open: Heap::new(), entry: FlagMap::new(lo, hi) }
    }

    /// Take the most promising state.
    fn take(&mut self, Ghost(s): Ghost<Search>) -> (r: Option<Frontier>)
        requires
            old(self).holds(s),
        ensures
            match r {
                Some(f) => is_top(s.open, f) && final(self).holds(
                    Search { open: s.open.remove(f), ..s },
                ),
                None => s.open.len() == 0,
            },
            final(self).entry == old(self).entry,
    {
        proof {
            reveal(Table::holds);
        }
        self.open.pop()
    }

    /// A search whose tables are the same is held too.
    proof fn lemma_holds(&self, s: Search, t: Search)
        requires
            self.holds(s),
            s.best == t.best,
            s.came == t.came,
            s.open == t.open,
        ensures
            self.holds(t),
    {
        reveal(Table::holds);
    }

    /// Note a cost, and that the state is to be looked at.
    fn note_cost(&mut self, p: Pos, dir: u8, cost: i128, f: Frontier, Ghost(s): Ghost<Search>)
        requires
            old(self).holds(s),
            dir < 5,
            0 <= cost < i128::MAX,
        ensures
            final(self).holds(
                Search { best: s.best.insert((p, dir), cost as int), open: s.open.insert(f), ..s },
            ),
            final(self).entry == old(self).entry,
    {
        proof {
            reveal(Table::holds);
        }
        self.open.push(f);
        self.best.insert(p, dir, cost);
    }

    /// Note the way to a state.
    fn note_way(&mut self, p: Pos, dir: u8, from: (Pos, u8), Ghost(s): Ghost<Search>)
        requires
            old(self).holds(s),
            dir < 5,
        ensures
            final(self).holds(Search { came: s.came.insert((p, dir), from), ..s }),
            final(self).entry == old(self).entry,
    {
        proof {
            reveal(Table::holds);
        }
        self.came[dir as usize].insert(p, from);
    }

    /// A table is right about the same positions as another.
    proof fn lemma_knows(&self, other: &Table, job: Job)
        requires
            other.knows(job),
            self.entry == other.entry,
        ensures
            self.knows(job),
    {
        reveal(Table::knows);
    }

    /// Note whether a position may be entered.
    fn note_entry(&mut self, q: Pos, ok: bool, Ghost(job): Ghost<Job>, Ghost(s): Ghost<Search>)
        requires
            old(self).knows(job),
            old(self).holds(s),
            ok == enterable(job, q),
        ensures
            final(self).knows(job),
            final(self).holds(s),
    {
        proof {
            reveal(Table::knows);
            reveal(Table::holds);
        }
        self.entry.insert(q, ok);
    }

    /// What is noted of a position.
    fn entry_of(&self, q: Pos, Ghost(job): Ghost<Job>) -> (r: Option<bool>)
        requires
            self.knows(job),
        ensures
            match r {
                Some(ok) => ok == enterable(job, q),
                None => true,
            },
    {
        proof {
            reveal(Table::knows);
        }
        self.entry.get(q)
    }

    fn cost_of(&self, p: Pos, dir: u8, Ghost(s): Ghost<Search>) -> (r: Option<i128>)
        requires
            self.holds(s),
            dir < 5,
        ensures
            match r {
                Some(c) => s.best.contains_key((p, dir)) && s.best[(p, dir)] == c,
                None => !s.best.contains_key((p, dir)),
            },
    {
        proof {
            reveal(Table::holds);
        }
        self.best.get(p, dir)
    }

    /// The positions on the way to a state.
    fn way_to(&self, p: Pos, dir: u8, Ghost(job): Ghost<Job>, Ghost(s): Ghost<Search>, Ghost(fuel): Ghost<nat>) -> (r: Vec<Pos>)
        requires
            self.holds(s),
            well_posed(job),
            ways_hold(job, s),
            s.best.contains_key((p, dir)),
            s.best[(p, dir)] <= fuel,
        ensures
            r@ == places(trail(s.came, (p, dir), fuel)),
    {
        proof {
            reveal(Table::holds);
        }
        let ghost goal = places(trail(s.came, (p, dir), fuel));
        let mut back: Vec<Pos> = Vec::new();
        let mut cur: (Pos, u8) = (p, dir);
        let ghost mut f: nat = fuel;
        assert(goal =~= goal + back@.reverse());
        loop
            invariant_except_break
                self.holds(s),
                well_posed(job),
                ways_hold(job, s),
                s.best.contains_key(cur),
                s.best[cur] <= f,
                goal == places(trail(s.came, cur, f)) + back@.reverse(),
            ensures
                goal == seq![cur.0] + back@.reverse(),
            decreases f,
        {
            proof {
                reveal(Table::holds);
            }
            proof {
                self.best.lemma_dir(cur);
            }
            assert(s.came.contains_key(cur) <==> self.came@[cur.1 as int]@.contains_key(cur.0));
            match self.came[cur.1 as usize].get(cur.0) {
                Some(prev) => {
                    let ghost had = back@;
                    proof {
                        assert(s.came.contains_key(cur) && s.came[cur] == *prev);
                        crate::search::lemma_step_cost(job, *prev, cur);
                        assert(s.best[cur] >= 1);
                        let rest = trail(s.came, *prev, (f - 1) as nat);
                        assert(places(trail(s.came, cur, f)) =~= places(rest).push(cur.0));
                        assert(goal =~= places(rest) + had.push(cur.0).reverse());
                        f = (f - 1) as nat;
                    }
                    back.push(cur.0);
                    cur = *prev;
                },
                None => {
                    assert(places(trail(s.came, cur, f)) =~= seq![cur.0]);
                    break;
                },
            }
        }
        let mut r: Vec<Pos> = Vec::new();
        r.push(cur.0);
        let n: usize = back.len();
        for i in 0..n
            invariant
                n == back@.len(),
                goal == seq![cur.0] + back@.reverse(),
                r@ == goal.take(i + 1),
        {
            r.push(back[n - 1 - i]);
            assert(r@ =~= goal.take(i + 2));
        }
        assert(goal.take(n + 1) =~= goal);
        r
    }
}

/// The heuristic.
fn remaining(a: Pos, b: Pos, slope_floor: i32) -> (h: i128)
    ensures
        h == heuristic(a, b, slope_floor as int),
        -0x8000_0000_0000_0000 <= h <= 0x8_0000_0000_0000_0000,
{
    let horiz: i64 = magnitude(a.0, b.0) + magnitude(a.2, b.2);
    let vert: i64 = magnitude(a.1, b.1);
    proof {
        assert(-0x8000_0000_0000_0000 <= vert * slope_floor <= 0x1_0000_0000_0000_0000) by (nonlinear_arith)
            requires
                0 <= vert <= 0xffff_ffff,
                -0x8000_0000 <= slope_floor <= 0x7fff_ffff,
        ;
    }
    let drop: i128 = vert as i128 * slope_floor as i128;
    if horiz > vert {
        drop + (horiz - vert) as i128 * 10
    } else {
        drop
    }
}

/// A state to look at.
fn frontier(p: Pos, dir: u8, cost: i128, to: Pos, slope_floor: i32, weight: i32, Ghost(job): Ghost<Job>) -> (f: Frontier)
    requires
        0 <= cost <= 0x1_0000_0000_0000_0000_0000_0000_00,
        job.to == to,
        job.slope_floor == slope_floor,
        job.weight == weight,
    ensures
        f == front(job, (p, dir), cost as int),
{
    let h: i128 = remaining(p, to, slope_floor);
    proof {
        assert(-0x8_0000_0000_0000_0000 * 0x8000_0000 <= h * weight <= 0x8_0000_0000_0000_0000 * 0x8000_0000)
            by (nonlinear_arith)
            requires
                -0x8_0000_0000_0000_0000 <= h <= 0x8_0000_0000_0000_0000,
                -0x8000_0000 <= weight <= 0x7fff_ffff,
        ;
    }
    let product: i128 = h * weight as i128;
    let e: i128 = if product < 0 {
        -((-product) / 10)
    } else {
        product / 10
    };
    assert(e == estimate(job, p));
    Frontier { priority: -(cost + e), cost, pos: p, dir }
}

fn no_route(to: Pos, sources: usize) -> (s: String)
    ensures
        s@ == no_route_text(to, sources as nat),
{
    let mut s = String::from_str("no route to ");
    push_pos(&mut s, to);
    s.append(" from any of ");
    push_decimal(&mut s, sources as u64);
    s.append(" source(s)");
    s
}

fn gave_up(expansions: u64, closest: i64, at: Pos) -> (s: String)
    ensures
        s@ == gave_up_text(expansions as nat, closest as int, at),
{
    let mut s = String::from_str("router gave up after ");
    push_decimal(&mut s, expansions);
    s.append(" expansions (closest approach ");
    push_signed(&mut s, closest);
    s.append(" at ");
    push_pos(&mut s, at);
    s.append(")");
    s
}

impl Router {
    /// May a path enter `q`?
    fn enterable(&self, grid: &Grid, net: NetId, to: Pos, bounds: (Pos, Pos), q: Pos, Ghost(job): Ghost<Job>) -> (r: bool)
        requires
            levers_inside(self@),
            job.board == self@,
            job.cells == grid@,
            job.net == net,
            job.to == to,
            job.lo == bounds.0,
            job.hi == bounds.1,
            roomy(bounds.0),
            roomy(bounds.1),
        ensures
            r == enterable(job, q),
    {
        let (lo, hi) = bounds;
        if !(lo.0 <= q.0 && q.0 <= hi.0 && lo.1 <= q.1 && q.1 <= hi.1 && lo.2 <= q.2 && q.2 <= hi.2) {
            return false;
        }
        if same(q, to) {
            !self.wires.blocked.contains(q) && !self.wires.scratch.contains(q)
        } else {
            self.wires.placeable(grid, q, net)
        }
    }

    /// Find a path from an existing wire node to a target cell.
    ///
    /// `weight` inflates the heuristic in tenths: 10 leaves it exact, 13 makes
    /// it 1.3x. At 10 the search is exact, and in open space every monotone path to
    /// the target then has the same score, so the search has no reason to prefer any
    /// of them and enumerates the lot. Above 10 the ties break toward the target and
    /// the search runs greedily where nothing is in the way, at the price of paths
    /// that may be longer than optimal.
    ///
    /// `slope_cost` prices a step that changes Y. Raising it makes the router
    /// prefer flat runs, which matters because **a repeater cannot sit on a
    /// slope**. A pure staircase descent has nowhere to refresh the signal, so
    /// a long one dies in transit; penalising slopes forces flat landings that
    /// [`Self::commit`] can put repeaters on.
    pub fn find(
        &self,
        grid: &Grid,
        net: NetId,
        sources: &[Pos],
        to: Pos,
        bounds: (Pos, Pos),
        slope_cost: i32,
        weight: i32,
        budget: usize,
    ) -> (r: Result<Path, String>)
        requires
            levers_inside(self@),
            well_posed(job_of(self@, self.tuning, grid@, net, sources@, to, bounds, slope_cost, weight, budget)),
        ensures
            ({
                let job = job_of(self@, self.tuning, grid@, net, sources@, to, bounds, slope_cost, weight, budget);
                &&& is_outcome(job, searched(job))
                &&& match r {
                    Ok(path) => searched(job) == Ok::<Seq<Pos>, Seq<char>>(path.nodes@),
                    Err(m) => searched(job) == Err::<Seq<Pos>, Seq<char>>(m@),
                }
            }),
    {
        let ghost job = job_of(self@, self.tuning, grid@, net, sources@, to, bounds, slope_cost, weight, budget);
        proof {
            lemma_search(job);
        }
        let floor: i32 = self.tuning.slope_floor;
        let mut table = Table::new(bounds.0, bounds.1, Ghost(job));
        for i in 0..sources.len()
            invariant
                job.to == to,
                job.slope_floor == floor,
                job.weight == weight,
                job.sources == sources@,
                table.holds(started(job, i as nat)),
                table.knows(job),
        {
            let src: Pos = sources[i];
            let f = frontier(src, 4, 0, to, floor, weight, Ghost(job));
            let ghost before = table;
            table.note_cost(src, 4, 0, f, Ghost(started(job, i as nat)));
            proof {
                table.lemma_knows(&before, job);
            }
        }
        let ghost mut s = started(job, sources@.len());
        proof {
            lemma_reaches_start(job);
        }
        let mut expansions: usize = 0;
        // How close the search ever got, so a failure can say whether it was
        // walled in near the target or simply wandering.
        let mut closest: i128 = 0x7fff_ffff;
        let mut closest_at: Pos = to;
        loop
            invariant
                levers_inside(self@),
                job == job_of(self@, self.tuning, grid@, net, sources@, to, bounds, slope_cost, weight, budget),
                well_posed(job),
                is_outcome(job, searched(job)),
                floor == self.tuning.slope_floor,
                table.holds(s),
                table.knows(job),
                reaches(job, s),
                expansions == s.expansions,
                expansions <= budget,
                closest == s.closest,
                closest_at == s.closest_at,
                -0x8000_0000_0000_0000 <= closest <= 0x7fff_ffff,
            decreases left(job, s),
        {
            let ghost before = table;
            let f = match table.take(Ghost(s)) {
                None => {
                    proof {
                        lemma_reaches_end(job, s);
                    }
                    return Err(no_route(to, sources.len()));
                },
                Some(f) => f,
            };
            let ghost t = popped(job, s, f);
            proof {
                lemma_reaches_top(job, s, f);
                table.lemma_knows(&before, job);
                table.lemma_holds(Search { open: s.open.remove(f), ..s }, t);
            }
            let h: i128 = remaining(f.pos, to, floor);
            if h < closest {
                closest = h;
                closest_at = f.pos;
            }
            if same(f.pos, to) {
                let nodes = table.way_to(f.pos, f.dir, Ghost(job), Ghost(t), Ghost(f.cost as nat));
                return Ok(Path { nodes });
            }
            let stale = match table.cost_of(f.pos, f.dir, Ghost(t)) {
                Some(c) => f.cost > c,
                None => false,
            };
            if stale {
                proof {
                    lemma_reaches_past(job, s, f);
                    s = t;
                }
                continue;
            }
            if expansions >= budget {
                proof {
                    lemma_reaches_limit(job, s, f);
                }
                return Err(gave_up(expansions as u64 + 1, closest as i64, closest_at));
            }
            expansions = expansions + 1;
            let ghost u = Search { expansions: s.expansions + 1, ..t };
            proof {
                lemma_reaches_on(job, s, f);
                table.lemma_holds(t, u);
            }
            self.expand(grid, net, to, bounds, slope_cost, weight, &mut table, f, Ghost(job), Ghost(u));
            proof {
                s = relaxed(job, f, u, 12);
            }
        }
    }

    /// Take the steps from `f`.
    fn expand(
        &self,
        grid: &Grid,
        net: NetId,
        to: Pos,
        bounds: (Pos, Pos),
        slope_cost: i32,
        weight: i32,
        table: &mut Table,
        f: Frontier,
        Ghost(job): Ghost<Job>,
        Ghost(u): Ghost<Search>,
    )
        requires
            levers_inside(self@),
            well_posed(job),
            job.board == self@,
            job.cells == grid@,
            job.net == net,
            job.to == to,
            job.lo == bounds.0,
            job.hi == bounds.1,
            job.slope_cost == slope_cost,
            job.weight == weight,
            job.slope_floor == self.tuning.slope_floor,
            old(table).holds(u),
            old(table).knows(job),
            interior(f.pos),
            f.dir <= 4,
            0 <= f.cost <= 0xffff_ffff_ffff_ffff * 0x1_0000_0000_00,
        ensures
            final(table).holds(relaxed(job, f, u, 12)),
            final(table).knows(job),
    {
        let ps = steps(f.pos);
        let floor: i32 = self.tuning.slope_floor;
        for i in 0..12usize
            invariant
                levers_inside(self@),
                well_posed(job),
                job.board == self@,
                job.cells == grid@,
                job.net == net,
                job.to == to,
                job.lo == bounds.0,
                job.hi == bounds.1,
                job.slope_cost == slope_cost,
                job.weight == weight,
                job.slope_floor == floor,
                ps@ == steps_from(f.pos),
                f.dir <= 4,
                0 <= f.cost <= 0xffff_ffff_ffff_ffff * 0x1_0000_0000_00,
                table.holds(relaxed(job, f, u, i as nat)),
                table.knows(job),
        {
            let (q, qdir) = ps[i];
            let ghost s = relaxed(job, f, u, i as nat);
            let ghost m = (q, qdir);
            assert(m == steps_from(f.pos)[i as int]);
            assert(qdir < 4) by {
                assert(steps_from(f.pos)[i as int].1 < 4);
            }
            let ok = match table.entry_of(q, Ghost(job)) {
                Some(ok) => ok,
                None => {
                    let ok = self.enterable(grid, net, to, bounds, q, Ghost(job));
                    table.note_entry(q, ok, Ghost(job), Ghost(s));
                    ok
                },
            };
            if ok {
                // Level moves are cheapest; slopes and turns are discouraged.
                let mut step: i128 = if q.1 == f.pos.1 {
                    10
                } else {
                    slope_cost as i128
                };
                if f.dir != 4 && f.dir != qdir {
                    step = step + TURN_COST as i128;
                }
                // Contested ground costs more. Zero unless a previous pass
                // recorded a failure here, so this is inert on a single pass.
                match self.wires.history.get(q) {
                    Some(h) => {
                        assert(self@.history.contains_key(q));
                        step = step + *h as i128;
                    },
                    None => {},
                }
                assert(step == step_cost(job, (f.pos, f.dir), m));
                let next: i128 = f.cost + step;
                let known = match table.cost_of(q, qdir, Ghost(s)) {
                    Some(c) => c <= next,
                    None => false,
                };
                if !known {
                    let g = frontier(q, qdir, next, to, floor, weight, Ghost(job));
                    let ghost before = *table;
                    table.note_cost(q, qdir, next, g, Ghost(s));
                    table.note_way(
                        q,
                        qdir,
                        (f.pos, f.dir),
                        Ghost(Search { best: s.best.insert(m, next as int), open: s.open.insert(g), ..s }),
                    );
                    proof {
                        table.lemma_knows(&before, job);
                    }
                }
            }
        }
    }
}

// --- laying a path ---------------------------------------------------------------------

/// The direction that a repeater at `p` reads from when the wire comes from `prev`.
pub open spec fn facing_back(prev: Pos, p: Pos) -> Dir {
    if p.0 > prev.0 {
        Dir::West
    } else if p.0 < prev.0 {
        Dir::East
    } else if p.2 > prev.2 {
        Dir::North
    } else {
        Dir::South
    }
}

pub open spec fn no_support_text(p: Pos, b: Block) -> Seq<char> {
    "no support for dust at "@ + pos_label(p) + ": "@ + block_label(b) + " sits below it"@
}

/// The block at node `i` of a path.
pub open spec fn wire_block(path: Seq<Pos>, sites: Seq<int>, i: int) -> Block {
    if sites.contains(i) {
        Block::Repeater { facing: facing_back(path[i - 1], path[i]), delay: 1, powered: false }
    } else {
        Block::Dust { power: 0 }
    }
}

/// A board and a grid, and the message of what stopped their construction.
pub struct Works {
    pub board: Board,
    pub cells: Map<Pos, Block>,
    pub stop: Option<Seq<char>>,
}

/// The board once `net` has wire at `p`.
pub open spec fn wired(b: Board, p: Pos, net: NetId) -> Board {
    Board { owner: b.owner.insert(p, net), blocked: b.blocked.insert(above(p)), ..b }
}

/// Node `i` is laid: its substrate, unless an opaque block is there already, then
/// the wire.
pub open spec fn node_laid(
    b: Board,
    cells: Map<Pos, Block>,
    net: NetId,
    path: Seq<Pos>,
    sites: Seq<int>,
    mat: Material,
    i: int,
) -> Works {
    let p = path[i];
    let sub = below(p);
    if !free(cells, sub) && !opaque_block(block_at(cells, sub)) {
        Works { board: b, cells, stop: Some(no_support_text(p, block_at(cells, sub))) }
    } else {
        let ground = if free(cells, sub) {
            cells.insert(sub, Block::Solid(mat))
        } else {
            cells
        };
        let block = wire_block(path, sites, i);
        if fits_at(ground, p, block) {
            Works { board: wired(b, p, net), cells: ground.insert(p, block), stop: None }
        } else {
            Works {
                board: b,
                cells: ground,
                stop: Some(collision_text(p, block, block_at(ground, p))),
            }
        }
    }
}

/// The nodes before `n` are laid, all but the first: that is the driver's own dust.
pub open spec fn nodes_laid(
    b: Board,
    cells: Map<Pos, Block>,
    net: NetId,
    path: Seq<Pos>,
    sites: Seq<int>,
    mat: Material,
    n: nat,
) -> Works
    decreases n,
{
    if n <= 1 {
        Works { board: b, cells, stop: None }
    } else {
        let before = nodes_laid(b, cells, net, path, sites, mat, (n - 1) as nat);
        if before.stop is Some {
            before
        } else {
            node_laid(before.board, before.cells, net, path, sites, mat, n - 1)
        }
    }
}

/// A path is laid, with its repeaters.
pub open spec fn path_laid(
    b: Board,
    cells: Map<Pos, Block>,
    net: NetId,
    path: Seq<Pos>,
    mat: Material,
    decay: int,
) -> Works {
    match repeaters_of(path, decay) {
        Ok(sites) => nodes_laid(b, cells, net, path, sites, mat, path.len()),
        Err(m) => Works { board: b, cells, stop: Some(m) },
    }
}

proof fn lemma_laid_stops(
    b: Board,
    cells: Map<Pos, Block>,
    net: NetId,
    path: Seq<Pos>,
    sites: Seq<int>,
    mat: Material,
    n: nat,
    m: nat,
)
    requires
        1 < n <= m,
        nodes_laid(b, cells, net, path, sites, mat, n).stop is Some,
    ensures
        nodes_laid(b, cells, net, path, sites, mat, m) == nodes_laid(b, cells, net, path, sites, mat, n),
    decreases m,
{
    if n < m {
        lemma_laid_stops(b, cells, net, path, sites, mat, n, (m - 1) as nat);
    }
}

fn has(v: &Vec<usize>, i: usize) -> (r: bool)
    ensures
        r == v@.map_values(|x: usize| x as int).contains(i as int),
{
    let ghost s = v@.map_values(|x: usize| x as int);
    for k in 0..v.len()
        invariant
            s == v@.map_values(|x: usize| x as int),
            forall|j: int| 0 <= j < k ==> v@[j] != i,
    {
        if v[k] == i {
            assert(s[k as int] == i);
            return true;
        }
    }
    assert(!s.contains(i as int)) by {
        if s.contains(i as int) {
            let j = choose|j: int| 0 <= j < s.len() && s[j] == i as int;
            assert(v@[j] == i);
        }
    }
    false
}

fn no_support(p: Pos, b: Block) -> (s: String)
    ensures
        s@ == no_support_text(p, b),
{
    let mut s = String::from_str("no support for dust at ");
    push_pos(&mut s, p);
    s.append(": ");
    push_block(&mut s, b);
    s.append(" sits below it");
    s
}

/// The works that a call leaves behind.
pub open spec fn works_of<T>(r: Router, g: Grid, result: Result<T, String>) -> Works {
    Works { board: r@, cells: g@, stop: refusal(result) }
}

impl Router {
    /// Lay one node.
    fn lay_node(
        &mut self,
        grid: &mut Grid,
        net: NetId,
        path: &[Pos],
        i: usize,
        repeat: bool,
        material: Material,
        Ghost(sites): Ghost<Seq<int>>,
    ) -> (r: Result<(), String>)
        requires
            0 < i < path@.len(),
            interior(path@[i as int]),
            repeat == sites.contains(i as int),
        ensures
            node_laid(old(self)@, old(grid)@, net, path@, sites, material, i as int) == works_of(
                *final(self),
                *final(grid),
                r,
            ),
            final(self).max_expansions == old(self).max_expansions,
            final(self).tuning == old(self).tuning,
    {
        let p: Pos = path[i];
        let prev: Pos = path[i - 1];
        let sub = down(p);
        // Reuse any opaque block already there (a cell roof, another
        // route's substrate) rather than trying to replace it.
        if grid.is_free(sub) {
            grid.set(sub, Block::Solid(material))?;
        } else if !grid.get(sub).is_opaque() {
            // Dust needs a full block under it. The search rejects cells
            // whose support is neither free nor opaque, but the *target* is
            // exempt from that check, so a target whose support cell was
            // taken by an earlier route would get dust laid on nothing. In
            // game that dust pops off the instant it is placed and the wire
            // silently does not exist. Fail loudly instead.
            return Err(no_support(p, grid.get(sub)));
        }
        let block = if repeat {
            let facing = if p.0 > prev.0 {
                Dir::West
            } else if p.0 < prev.0 {
                Dir::East
            } else if p.2 > prev.2 {
                Dir::North
            } else {
                Dir::South
            };
            Block::Repeater { facing, delay: 1, powered: false }
        } else {
            Block::Dust { power: 0 }
        };
        grid.set(p, block)?;
        self.wires.owner.insert(p, net);
        self.wires.blocked.insert(up(p), true);
        assert(self@.blocked =~= old(self)@.blocked.insert(above(p)));
        Ok(())
    }

    /// Commit a path: place substrate and dust, insert the planned repeaters,
    /// and reserve keepout around the whole run.
    pub fn commit(
        &mut self,
        grid: &mut Grid,
        net: NetId,
        path: &Path,
        material: Material,
        initial_decay: i32,
    ) -> (r: Result<(), String>)
        requires
            forall|i: int| 0 <= i < path.nodes@.len() ==> interior(#[trigger] path.nodes@[i]),
        ensures
            path_laid(old(self)@, old(grid)@, net, path.nodes@, material, initial_decay as int) == works_of(
                *final(self),
                *final(grid),
                r,
            ),
            final(self).max_expansions == old(self).max_expansions,
            final(self).tuning == old(self).tuning,
    {
        let ghost b = self@;
        let ghost cells = grid@;
        let ghost ps = path.nodes@;
        let sites = plan_repeaters(path.nodes.as_slice(), initial_decay)?;
        let ghost at = sites@.map_values(|i: usize| i as int);
        let n: usize = path.nodes.len();
        if n == 0 {
            return Ok(());
        }
        // `nodes[0]` is the existing driver dust; everything after is new.
        for i in 1..n
            invariant
                n == ps.len(),
                ps == path.nodes@,
                b == old(self)@,
                cells == old(grid)@,
                at == sites@.map_values(|i: usize| i as int),
                repeaters_of(ps, initial_decay as int) == Ok::<Seq<int>, Seq<char>>(at),
                forall|i: int| 0 <= i < path.nodes@.len() ==> interior(#[trigger] path.nodes@[i]),
                nodes_laid(b, cells, net, ps, at, material, i as nat) == (Works {
                    board: self@,
                    cells: grid@,
                    stop: None,
                }),
                self.max_expansions == old(self).max_expansions,
                self.tuning == old(self).tuning,
        {
            let repeat = has(&sites, i);
            match self.lay_node(grid, net, path.nodes.as_slice(), i, repeat, material, Ghost(at)) {
                Ok(_) => {},
                Err(e) => {
                    proof {
                        lemma_laid_stops(b, cells, net, ps, at, material, (i + 1) as nat, n as nat);
                    }
                    return Err(e);
                },
            }
        }
        Ok(())
    }
}

// --- routing -----------------------------------------------------------------------------

/// What [`Router::route`] is asked.
pub struct Wanted {
    pub tuning: Tuning,
    pub max_expansions: usize,
    pub net: NetId,
    pub sources: Seq<Pos>,
    pub to: Pos,
    pub bounds: (Pos, Pos),
    pub material: Material,
    pub decay: i32,
}

/// The price of a slope in attempt `k`. It rises to push a route towards the flat
/// runs a repeater can sit on - mildly, because a target that can only be reached by
/// descending becomes unreachable when descending costs too much.
pub open spec fn slope_price(t: Tuning, k: int) -> i32 {
    let rung = k / (t.slope_div as int);
    if rung == 0 {
        14
    } else if rung == 1 {
        20
    } else if rung == 2 {
        28
    } else {
        40
    }
}

/// The weight of the heuristic and the budget of attempt `k`: exact first, with a
/// smaller budget, then greedy, then in between.
pub open spec fn regime(t: Tuning, max_expansions: usize, k: int) -> (i32, usize) {
    if t.weight_mode == 1 {
        (10, max_expansions)
    } else if t.weight_mode == 2 {
        (13, max_expansions)
    } else if t.weight_mode == 3 {
        (18, max_expansions)
    } else if k % 3 == 0 {
        (10, 80_000)
    } else if k % 3 == 1 {
        (18, max_expansions)
    } else {
        (13, max_expansions)
    }
}

pub open spec fn lesser(a: int, b: int) -> int {
    if a < b {
        a
    } else {
        b
    }
}

pub open spec fn greater(a: int, b: int) -> int {
    if a > b {
        a
    } else {
        b
    }
}

/// The box that attempt `k` searches: around the two endpoints, with a margin that
/// is at least the drop and grows with every attempt, within the bounds.
pub open spec fn search_box(from: Pos, to: Pos, bounds: (Pos, Pos), k: int) -> (Pos, Pos) {
    let m = 10 + abs(from.1 - to.1) + k * 5;
    (
        (
            greater(lesser(from.0 as int, to.0 as int) - m, bounds.0.0 as int) as i32,
            greater(lesser(from.1 as int, to.1 as int) - m, bounds.0.1 as int) as i32,
            greater(lesser(from.2 as int, to.2 as int) - m, bounds.0.2 as int) as i32,
        ),
        (
            lesser(greater(from.0 as int, to.0 as int) + m, bounds.1.0 as int) as i32,
            lesser(greater(from.1 as int, to.1 as int) + m, bounds.1.1 as int) as i32,
            lesser(greater(from.2 as int, to.2 as int) + m, bounds.1.2 as int) as i32,
        ),
    )
}

/// The search of attempt `k`.
pub open spec fn attempt(w: Wanted, b: Board, cells: Map<Pos, Block>, k: int) -> Job {
    let (weight, budget) = regime(w.tuning, w.max_expansions, k);
    job_of(
        b,
        w.tuning,
        cells,
        w.net,
        w.sources,
        w.to,
        search_box(w.sources[0], w.to, w.bounds, k),
        slope_price(w.tuning, k),
        weight,
        budget,
    )
}

/// The board with nothing barred.
pub open spec fn unbarred(b: Board) -> Board {
    Board { scratch: Set::empty(), ..b }
}

pub open spec fn barred(b: Board, p: Pos) -> Board {
    Board { scratch: b.scratch.insert(p), ..b }
}

/// The open ways from the first `n` sources.
pub open spec fn open_exits(w: Wanted, b: Board, cells: Map<Pos, Block>, n: nat) -> nat
    decreases n,
{
    if n == 0 {
        0
    } else {
        open_exits(w, b, cells, (n - 1) as nat) + open_steps(b, cells, w.sources[n - 1], None, w.net, 12)
    }
}

/// Why a route failed.
pub open spec fn diagnosis(w: Wanted, b: Board, cells: Map<Pos, Block>) -> Seq<char> {
    "target "@ + pos_label(w.to) + " has "@ + decimal(open_steps(b, cells, w.to, None, w.net, 12))
        + "/12 open approaches, "@ + decimal(w.sources.len()) + " source(s) have "@ + decimal(
        open_exits(w, b, cells, w.sources.len()),
    ) + " open exits, manhattan span "@ + signed(distance(w.sources[0], w.to))
}

/// Routing from attempt `k` on, after a failure `last`. A path that collides with
/// itself, or has nowhere to put a repeater, is barred at one cell and searched
/// again.
#[verifier::opaque]
pub open spec fn tried(w: Wanted, b: Board, cells: Map<Pos, Block>, last: Seq<char>, k: nat) -> Works
    decreases w.tuning.attempts - k,
{
    if k >= w.tuning.attempts {
        let done = unbarred(b);
        Works { board: done, cells, stop: Some(last + "; "@ + diagnosis(w, done, cells)) }
    } else {
        match searched(attempt(w, b, cells, k as int)) {
            Err(e) => tried(w, b, cells, e, k + 1),
            Ok(path) => match conflict_of(path) {
                Some(bad) => tried(w, barred(b, bad), cells, "path collides with itself"@, k + 1),
                None => match repeaters_of(path, w.decay as int) {
                    Ok(_) => path_laid(unbarred(b), cells, w.net, path, w.material, w.decay as int),
                    Err(e) => tried(
                        w,
                        if path.len() > 2 {
                            barred(b, path[(path.len() / 2) as int])
                        } else {
                            b
                        },
                        cells,
                        e,
                        k + 1,
                    ),
                },
            },
        }
    }
}

/// The board with the endpoints of a route set.
pub open spec fn aimed(b: Board, sources: Seq<Pos>, to: Pos) -> Board {
    Board { active_endpoints: sources.to_set().insert(to), ..unbarred(b) }
}

/// A net is routed.
pub open spec fn net_routed(w: Wanted, b: Board, cells: Map<Pos, Block>) -> Works {
    tried(w, aimed(b, w.sources, w.to), cells, "no attempt made"@, 0)
}

/// The charges on a board are not negative, and its levers have room.
pub open spec fn board_ok(b: Board) -> bool {
    &&& levers_inside(b)
    &&& forall|q: Pos| #[trigger] b.history.contains_key(q) ==> b.history[q] >= 0
}

/// A route can be asked for: it has a source, and its coordinates have room.
pub open spec fn can_route(w: Wanted) -> bool {
    &&& w.sources.len() > 0
    &&& forall|i: int| 0 <= i < w.sources.len() ==> in_world(#[trigger] w.sources[i])
    &&& in_world(w.to)
    &&& far_inside(w.bounds.0)
    &&& far_inside(w.bounds.1)
    &&& w.tuning.attempts <= 0x10_0000
    &&& w.tuning.slope_div > 0
    &&& w.max_expansions < 0xffff_ffff_ffff_ffff
    &&& 12 * w.sources.len() <= usize::MAX
}

/// Coordinates that stay well within range.
pub open spec fn far_inside(p: Pos) -> bool {
    &&& -0x4000_0000 <= p.0 <= 0x4000_0000
    &&& -0x4000_0000 <= p.1 <= 0x4000_0000
    &&& -0x4000_0000 <= p.2 <= 0x4000_0000
}

pub open spec fn wanted_of(
    r: Router,
    net: NetId,
    sources: Seq<Pos>,
    to: Pos,
    bounds: (Pos, Pos),
    material: Material,
    decay: i32,
) -> Wanted {
    Wanted { tuning: r.tuning, max_expansions: r.max_expansions, net, sources, to, bounds, material, decay }
}

/// The nodes of a found path have room around them.
proof fn lemma_path_interior(job: Job)
    requires
        well_posed(job),
        searched(job) is Ok,
    ensures
        forall|i: int| 0 <= i < searched(job)->Ok_0.len() ==> interior(#[trigger] searched(job)->Ok_0[i]),
        searched(job)->Ok_0.len() > 0,
{
    lemma_search(job);
    let path = searched(job)->Ok_0;
    let way = choose|way: Seq<Node>| #[trigger] is_answer(job, way) && places(way) == path;
    assert forall|i: int| 0 <= i < path.len() implies interior(#[trigger] path[i]) by {
        assert(path[i] == way[i].0);
        if i == 0 {
            let j = choose|j: int| 0 <= j < job.sources.len() && job.sources[j] == way[0].0;
            assert(interior(job.sources[j]));
        } else {
            assert(steps_to(job, way[i - 1], way[i]));
        }
    }
}

fn min_of(a: i32, b: i32) -> (r: i32)
    ensures
        r == lesser(a as int, b as int),
{
    if a < b {
        a
    } else {
        b
    }
}

fn max_of(a: i32, b: i32) -> (r: i32)
    ensures
        r == greater(a as int, b as int),
{
    if a > b {
        a
    } else {
        b
    }
}

fn local_box(from: Pos, to: Pos, bounds: (Pos, Pos), k: usize) -> (r: (Pos, Pos))
    requires
        in_world(from),
        in_world(to),
        far_inside(bounds.0),
        far_inside(bounds.1),
        k <= 0x10_0000,
    ensures
        r == search_box(from, to, bounds, k as int),
        roomy(r.0),
        roomy(r.1),
{
    // The margin must be at least the vertical drop. Dust descends one
    // block of Y per block of horizontal travel, so a route that falls
    // N levels needs N blocks of horizontal room.
    let drop: i32 = magnitude(from.1, to.1) as i32;
    let m: i32 = 10 + drop + k as i32 * 5;
    (
        (
            max_of(min_of(from.0, to.0) - m, bounds.0.0),
            max_of(min_of(from.1, to.1) - m, bounds.0.1),
            max_of(min_of(from.2, to.2) - m, bounds.0.2),
        ),
        (
            min_of(max_of(from.0, to.0) + m, bounds.1.0),
            min_of(max_of(from.1, to.1) + m, bounds.1.1),
            min_of(max_of(from.2, to.2) + m, bounds.1.2),
        ),
    )
}

/// What one attempt comes to.
enum Trial {
    Done(Result<(), String>),
    Again(String),
}

proof fn lemma_attempt_posed(w: Wanted, b: Board, cells: Map<Pos, Block>, k: int)
    requires
        can_route(w),
        board_ok(b),
        0 <= k < w.tuning.attempts,
    ensures
        well_posed(attempt(w, b, cells, k)),
{
    let job = attempt(w, b, cells, k);
    assert(in_world(w.sources[0]));
    assert forall|i: int| 0 <= i < job.sources.len() implies interior(#[trigger] job.sources[i]) by {
        assert(in_world(w.sources[i]));
    }
}

impl Wires {
    fn unbar(&mut self)
        ensures
            final(self)@ == unbarred(old(self)@),
    {
        self.scratch = PosMap::new();
        assert(self@.scratch =~= Set::empty());
    }

    fn bar(&mut self, p: Pos)
        ensures
            final(self)@ == barred(old(self)@, p),
    {
        self.scratch.insert(p, true);
        assert(self@.scratch =~= old(self)@.scratch.insert(p));
    }

    fn aim(&mut self, sources: &[Pos], to: Pos)
        ensures
            final(self)@ == aimed(old(self)@, sources@, to),
    {
        self.unbar();
        let mut ends: PosMap<bool> = PosMap::new();
        for i in 0..sources.len()
            invariant
                forall|p: Pos| #[trigger] ends@.contains_key(p) <==> sources@.take(i as int).contains(p),
        {
            let p: Pos = sources[i];
            proof {
                assert(sources@.take(i + 1) =~= sources@.take(i as int).push(p));
                crate::redstone::lemma_contains_push(sources@.take(i as int), p);
            }
            ends.insert(p, true);
        }
        assert(sources@.take(sources@.len() as int) =~= sources@);
        ends.insert(to, true);
        self.active_endpoints = ends;
        assert(self@.active_endpoints =~= sources@.to_set().insert(to));
    }
}

impl Router {
    /// Why did a route fail? Distinguishes "the target is walled in" from "the
    /// search space is too big" - opposite problems, indistinguishable from the
    /// generic message.
    fn diagnose(&self, grid: &Grid, sources: &[Pos], to: Pos, net: NetId, Ghost(w): Ghost<Wanted>) -> (s: String)
        requires
            levers_inside(self@),
            can_route(w),
            w.net == net,
            w.sources == sources@,
            w.to == to,
        ensures
            s@ == diagnosis(w, self@, grid@),
    {
        let mut exits: usize = 0;
        for i in 0..sources.len()
            invariant
                levers_inside(self@),
                can_route(w),
                w.net == net,
                w.sources == sources@,
                exits <= 12 * i,
                exits == open_exits(w, self@, grid@, i as nat),
        {
            assert(in_world(w.sources[i as int]));
            let n: usize = self.wires.open_count(grid, sources[i], None, net);
            exits = exits + n;
        }
        assert(in_world(w.sources[0]));
        let open: usize = self.wires.open_count(grid, to, None, net);
        let mut s = String::from_str("target ");
        push_pos(&mut s, to);
        s.append(" has ");
        push_decimal(&mut s, open as u64);
        s.append("/12 open approaches, ");
        push_decimal(&mut s, sources.len() as u64);
        s.append(" source(s) have ");
        push_decimal(&mut s, exits as u64);
        s.append(" open exits, manhattan span ");
        push_signed(&mut s, span(sources[0], to));
        s
    }

    fn slope_now(&self, k: usize) -> (r: i32)
        requires
            self.tuning.slope_div > 0,
        ensures
            r == slope_price(self.tuning, k as int),
    {
        let rung: usize = k / self.tuning.slope_div;
        if rung == 0 {
            14
        } else if rung == 1 {
            20
        } else if rung == 2 {
            28
        } else {
            40
        }
    }

    fn regime_now(&self, k: usize) -> (r: (i32, usize))
        ensures
            r == regime(self.tuning, self.max_expansions, k as int),
    {
        if self.tuning.weight_mode == 1 {
            (10, self.max_expansions)
        } else if self.tuning.weight_mode == 2 {
            (13, self.max_expansions)
        } else if self.tuning.weight_mode == 3 {
            (18, self.max_expansions)
        } else if k % 3 == 0 {
            (10, 80_000)
        } else if k % 3 == 1 {
            (18, self.max_expansions)
        } else {
            (13, self.max_expansions)
        }
    }

    /// One attempt at a route.
    fn try_once(
        &mut self,
        grid: &mut Grid,
        net: NetId,
        sources: &[Pos],
        to: Pos,
        bounds: (Pos, Pos),
        material: Material,
        initial_decay: i32,
        k: usize,
        Ghost(w): Ghost<Wanted>,
        Ghost(last): Ghost<Seq<char>>,
    ) -> (r: Trial)
        requires
            w == wanted_of(*old(self), net, sources@, to, bounds, material, initial_decay),
            can_route(w),
            board_ok(old(self)@),
            k < w.tuning.attempts,
        ensures
            final(self).max_expansions == old(self).max_expansions,
            final(self).tuning == old(self).tuning,
            board_ok(final(self)@),
            match r {
                Trial::Done(r) => tried(w, old(self)@, old(grid)@, last, k as nat) == works_of(
                    *final(self),
                    *final(grid),
                    r,
                ),
                Trial::Again(e) => final(grid)@ == old(grid)@ && tried(
                    w,
                    old(self)@,
                    old(grid)@,
                    last,
                    k as nat,
                ) == tried(w, final(self)@, old(grid)@, e@, (k + 1) as nat),
            },
    {
        proof {
            reveal(tried);
        }
        assert(in_world(w.sources[0]));
        let from: Pos = sources[0];
        let slope_cost: i32 = self.slope_now(k);
        // The two ways to fail want opposite searches: a short route inside a
        // packed macro needs an exact search, a long route across open ground
        // needs a greedy one. So each attempt tries a different regime while the
        // barred cells keep growing underneath.
        let (weight, budget) = self.regime_now(k);
        let local = local_box(from, to, bounds, k);
        let ghost b = self@;
        let ghost job = attempt(w, self@, grid@, k as int);
        proof {
            lemma_attempt_posed(w, self@, grid@, k as int);
        }
        match self.find(grid, net, sources, to, local, slope_cost, weight, budget) {
            Ok(path) => {
                proof {
                    lemma_path_interior(job);
                }
                match first_conflict(path.nodes.as_slice()) {
                    Some(bad) => {
                        self.wires.bar(bad);
                        Trial::Again(String::from_str("path collides with itself"))
                    },
                    None => match plan_repeaters(path.nodes.as_slice(), initial_decay) {
                        Ok(_) => {
                            proof {
                                lemma_laid_ok(
                                    unbarred(b),
                                    grid@,
                                    net,
                                    path.nodes@,
                                    material,
                                    initial_decay as int,
                                );
                            }
                            self.wires.unbar();
                            Trial::Done(self.commit(grid, net, &path, material, initial_decay))
                        },
                        Err(e) => {
                            // Bar a midpoint so the next search takes a
                            // different shape with somewhere flat to refresh.
                            if path.nodes.len() > 2 {
                                let mid: Pos = path.nodes[path.nodes.len() / 2];
                                self.wires.bar(mid);
                            }
                            Trial::Again(e)
                        },
                    },
                }
            },
            Err(e) => Trial::Again(e),
        }
    }

    /// Route a net, retrying until the path is physically buildable.
    ///
    /// Two things can make an otherwise valid search result unusable: the path may
    /// collide with itself (see [`first_conflict`]), or it may be a pure
    /// staircase with nowhere to put a repeater. Neither is visible from inside
    /// the search, which explores states rather than whole paths.
    ///
    /// So the router does what real routers do: find a path, check it, and on
    /// failure bar the offending cell and search again. Escalating the slope penalty
    /// in parallel pushes the router towards flat runs, which is what repeaters
    /// need. This is rip-up-and-retry at the granularity of a single cell.
    pub fn route(
        &mut self,
        grid: &mut Grid,
        net: NetId,
        sources: &[Pos],
        to: Pos,
        bounds: (Pos, Pos),
        material: Material,
        initial_decay: i32,
    ) -> (r: Result<(), String>)
        requires
            board_ok(old(self)@),
            can_route(wanted_of(*old(self), net, sources@, to, bounds, material, initial_decay)),
        ensures
            net_routed(
                wanted_of(*old(self), net, sources@, to, bounds, material, initial_decay),
                old(self)@,
                old(grid)@,
            ) == works_of(*final(self), *final(grid), r),
            board_ok(final(self)@),
            final(self).max_expansions == old(self).max_expansions,
            final(self).tuning == old(self).tuning,
    {
        let ghost w = wanted_of(*self, net, sources@, to, bounds, material, initial_decay);
        let ghost cells = grid@;
        let ghost goal = net_routed(w, self@, grid@);
        self.wires.aim(sources, to);
        let mut last = String::from_str("no attempt made");
        let n: usize = self.tuning.attempts;
        assert(in_world(w.sources[0]));
        for k in 0..n
            invariant
                w == wanted_of(*old(self), net, sources@, to, bounds, material, initial_decay),
                self.tuning == old(self).tuning,
                self.max_expansions == old(self).max_expansions,
                goal == net_routed(w, old(self)@, old(grid)@),
                cells == old(grid)@,
                n == w.tuning.attempts,
                can_route(w),
                in_world(w.sources[0]),
                board_ok(self@),
                grid@ == cells,
                goal == tried(w, self@, cells, last@, k as nat),
        {
            match self.try_once(grid, net, sources, to, bounds, material, initial_decay, k, Ghost(w), Ghost(last@)) {
                Trial::Done(r) => {
                    return r;
                },
                Trial::Again(e) => {
                    last = e;
                },
            }
        }
        proof {
            reveal(tried);
        }
        self.wires.unbar();
        let why = self.diagnose(grid, sources, to, net, Ghost(w));
        last.append("; ");
        last.append(why.as_str());
        Err(last)
    }
}

proof fn lemma_nodes_ok(b: Board, cells: Map<Pos, Block>, net: NetId, path: Seq<Pos>, sites: Seq<int>, mat: Material, n: nat)
    requires
        board_ok(b),
    ensures
        board_ok(nodes_laid(b, cells, net, path, sites, mat, n).board),
    decreases n,
{
    if n > 1 {
        lemma_nodes_ok(b, cells, net, path, sites, mat, (n - 1) as nat);
    }
}

proof fn lemma_laid_ok(b: Board, cells: Map<Pos, Block>, net: NetId, path: Seq<Pos>, mat: Material, decay: int)
    requires
        board_ok(b),
    ensures
        board_ok(path_laid(b, cells, net, path, mat, decay).board),
{
    match repeaters_of(path, decay) {
        Ok(sites) => {
            lemma_nodes_ok(b, cells, net, path, sites, mat, path.len());
        },
        Err(_) => {},
    }
}

// --- nets stay apart -----------------------------------------------------------------------

/// Dust that was there before any routing, or that a net was told to attach to.
pub open spec fn is_fixed(b: Board, p: Pos) -> bool {
    b.claimed.contains(p) || b.owner[p] == PREPLACED
}

/// Wires of two nets join only where both were placed by hand.
pub open spec fn nets_apart(b: Board) -> bool {
    forall|p: Pos, q: Pos|
        interior(p) && interior(q) && b.owner.contains_key(p) && b.owner.contains_key(q) && b.owner[p]
            != b.owner[q] && #[trigger] joins(p, q) ==> is_fixed(b, p) && is_fixed(b, q)
}

/// The board has grown by wire of `net` on nodes of the path.
spec fn grown_by(b: Board, after: Board, net: NetId, path: Seq<Pos>) -> bool {
    &&& after.claimed == b.claimed
    &&& forall|p: Pos| #[trigger] b.owner.contains_key(p) ==> after.owner.contains_key(p)
    &&& forall|p: Pos| #[trigger]
        after.owner.contains_key(p) ==> {
            ||| b.owner.contains_key(p) && after.owner[p] == b.owner[p]
            ||| after.owner[p] == net && path.contains(p)
        }
}

proof fn lemma_grown(b: Board, cells: Map<Pos, Block>, net: NetId, path: Seq<Pos>, sites: Seq<int>, mat: Material, n: nat)
    requires
        n <= path.len(),
    ensures
        grown_by(b, nodes_laid(b, cells, net, path, sites, mat, n).board, net, path),
    decreases n,
{
    if n > 1 {
        lemma_grown(b, cells, net, path, sites, mat, (n - 1) as nat);
        assert(path.contains(path[n - 1]));
    }
}

/// Wire on a path that was found touches no other net.
proof fn lemma_path_apart(job: Job, b: Board, after: Board, path: Seq<Pos>)
    requires
        well_posed(job),
        searched(job) == Ok::<Seq<Pos>, Seq<char>>(path),
        nets_apart(b),
        job.board.owner == b.owner,
        grown_by(b, after, job.net, path),
        b.owner.contains_key(job.to),
        b.owner[job.to] == job.net,
        b.claimed.contains(job.to),
        forall|i: int|
            0 <= i < job.sources.len() ==> b.owner.contains_key(#[trigger] job.sources[i])
                && b.owner[job.sources[i]] == job.net && b.claimed.contains(job.sources[i]),
    ensures
        nets_apart(after),
{
    lemma_search(job);
    let way = choose|way: Seq<Node>| #[trigger] is_answer(job, way) && places(way) == path;
    assert forall|p: Pos, q: Pos|
        interior(p) && interior(q) && after.owner.contains_key(p) && after.owner.contains_key(q) && after.owner[p] != after.owner[q] && #[trigger] joins(
            p,
            q,
        ) implies is_fixed(after, p) && is_fixed(after, q) by {
        if b.owner.contains_key(p) && after.owner[p] == b.owner[p] && b.owner.contains_key(q) && after.owner[q] == b.owner[q] {
            assert(is_fixed(b, p) && is_fixed(b, q));
        } else if after.owner[p] == job.net && path.contains(p) && !(b.owner.contains_key(p) && after.owner[p] == b.owner[p]) {
            lemma_node_apart(job, b, path, way, p, q);
        } else {
            lemma_node_roomy(job, path, way, q);
            lemma_node_apart(job, b, path, way, q, p);
        }
    }
}

/// A new node of a path is roomy, unless it is an endpoint.
proof fn lemma_node_roomy(job: Job, path: Seq<Pos>, way: Seq<Node>, p: Pos)
    requires
        well_posed(job),
        is_answer(job, way),
        places(way) == path,
        path.contains(p),
    ensures
        job.sources.contains(p) || (inside_job(job, p) && (p == job.to || placeable(job.board, job.cells, p, job.net))),
{
    let i = choose|i: int| 0 <= i < path.len() && path[i] == p;
    assert(way[i].0 == p);
    if i > 0 {
        assert(steps_to(job, way[i - 1], way[i]));
    }
}

spec fn inside_job(job: Job, p: Pos) -> bool {
    crate::search::inside(job.lo, job.hi, p)
}

proof fn lemma_node_apart(job: Job, b: Board, path: Seq<Pos>, way: Seq<Node>, p: Pos, q: Pos)
    requires
        well_posed(job),
        is_answer(job, way),
        places(way) == path,
        path.contains(p),
        !(b.owner.contains_key(p) && b.owner[p] == job.net),
        job.board.owner == b.owner,
        b.owner.contains_key(job.to),
        b.owner[job.to] == job.net,
        forall|i: int|
            0 <= i < job.sources.len() ==> b.owner.contains_key(#[trigger] job.sources[i])
                && b.owner[job.sources[i]] == job.net,
        joins(p, q) || joins(q, p),
        interior(q),
    ensures
        b.owner.contains_key(q) ==> b.owner[q] == job.net,
{
    lemma_node_roomy(job, path, way, p);
    if job.sources.contains(p) {
        let i = choose|i: int| 0 <= i < job.sources.len() && job.sources[i] == p;
        assert(b.owner.contains_key(job.sources[i]));
    }
    assert(roomy(p));
    assert(placeable(job.board, job.cells, p, job.net));
    if !joins(p, q) {
        lemma_joins_back(q, p);
    }
    let i = choose|i: int| 0 <= i < 12 && (#[trigger] steps_from(p)[i]).0 == q;
    assert(may_join(job.board, steps_from(p)[i].0, job.net));
}

/// Joining goes both ways, seen from the node that has room.
proof fn lemma_joins_back(q: Pos, p: Pos)
    requires
        joins(q, p),
        interior(q),
    ensures
        joins(p, q),
{
    let i = choose|i: int| 0 <= i < 12 && (#[trigger] steps_from(q)[i]).0 == p;
    let back = steps_from(p);
    if i == 0 {
        assert(back[3].0 == q);
    } else if i == 1 {
        assert(back[5].0 == q);
    } else if i == 2 {
        assert(back[4].0 == q);
    } else if i == 3 {
        assert(back[0].0 == q);
    } else if i == 4 {
        assert(back[2].0 == q);
    } else if i == 5 {
        assert(back[1].0 == q);
    } else if i == 6 {
        assert(back[9].0 == q);
    } else if i == 7 {
        assert(back[11].0 == q);
    } else if i == 8 {
        assert(back[10].0 == q);
    } else if i == 9 {
        assert(back[6].0 == q);
    } else if i == 10 {
        assert(back[8].0 == q);
    } else {
        assert(back[7].0 == q);
    }
}

/// The endpoints of a route are the net's own.
pub open spec fn ends_claimed(w: Wanted, b: Board) -> bool {
    &&& b.owner.contains_key(w.to)
    &&& b.owner[w.to] == w.net
    &&& b.claimed.contains(w.to)
    &&& forall|i: int|
        0 <= i < w.sources.len() ==> b.owner.contains_key(#[trigger] w.sources[i])
            && b.owner[w.sources[i]] == w.net && b.claimed.contains(w.sources[i])
}

proof fn lemma_tried_apart(w: Wanted, b: Board, cells: Map<Pos, Block>, last: Seq<char>, k: nat)
    requires
        can_route(w),
        board_ok(b),
        nets_apart(b),
        ends_claimed(w, b),
    ensures
        nets_apart(tried(w, b, cells, last, k).board),
    decreases w.tuning.attempts - k,
{
    reveal(tried);
    if k < w.tuning.attempts {
        let job = attempt(w, b, cells, k as int);
        lemma_attempt_posed(w, b, cells, k as int);
        match searched(job) {
            Err(e) => {
                lemma_tried_apart(w, b, cells, e, k + 1);
            },
            Ok(path) => match conflict_of(path) {
                Some(bad) => {
                    lemma_tried_apart(w, barred(b, bad), cells, "path collides with itself"@, k + 1);
                },
                None => match repeaters_of(path, w.decay as int) {
                    Ok(sites) => {
                        let start = unbarred(b);
                        lemma_grown(start, cells, w.net, path, sites, w.material, path.len());
                        lemma_path_apart(job, start, path_laid(start, cells, w.net, path, w.material, w.decay as int).board, path);
                    },
                    Err(e) => {
                        if path.len() > 2 {
                            lemma_tried_apart(w, barred(b, path[(path.len() / 2) as int]), cells, e, k + 1);
                        } else {
                            lemma_tried_apart(w, b, cells, e, k + 1);
                        }
                    },
                },
            },
        }
    }
}

/// Routing never shorts two nets: if wires of different nets joined only where both
/// were placed by hand, that is still so once a net has been routed between endpoints
/// of its own.
pub proof fn lemma_route_keeps_apart(w: Wanted, b: Board, cells: Map<Pos, Block>)
    requires
        can_route(w),
        board_ok(b),
        nets_apart(b),
        ends_claimed(w, b),
    ensures
        nets_apart(net_routed(w, b, cells).board),
{
    let start = aimed(b, w.sources, w.to);
    lemma_tried_apart(w, start, cells, "no attempt made"@, 0);
}

/// A router that has just seen a grid has no nets that join.
pub proof fn lemma_board_apart(cells: Map<Pos, Block>)
    ensures
        nets_apart(board_from(cells)),
{
}

/// Ripping a net up leaves the others apart.
pub proof fn lemma_rip_keeps_apart(b: Board, net: NetId)
    requires
        nets_apart(b),
    ensures
        nets_apart(ripped(b, net)),
{
    let after = ripped(b, net);
    assert forall|p: Pos, q: Pos|
        interior(p) && interior(q) && after.owner.contains_key(p) && after.owner.contains_key(q) && after.owner[p] != after.owner[q] && #[trigger] joins(
            p,
            q,
        ) implies is_fixed(after, p) && is_fixed(after, q) by {
        assert(b.owner.contains_key(p) && b.owner.contains_key(q));
        assert(joins(p, q));
    }
}

/// What a net was told to attach to is still its own.
pub open spec fn claims_kept(b: Board, after: Board) -> bool {
    forall|p: Pos|
        #![trigger b.claimed.contains(p)]
        b.claimed.contains(p) && b.owner.contains_key(p) ==> after.claimed.contains(p)
            && after.owner.contains_key(p) && after.owner[p] == b.owner[p]
}

proof fn lemma_tried_claims(w: Wanted, b: Board, cells: Map<Pos, Block>, last: Seq<char>, k: nat)
    requires
        can_route(w),
        board_ok(b),
        ends_claimed(w, b),
    ensures
        claims_kept(b, tried(w, b, cells, last, k).board),
        board_ok(tried(w, b, cells, last, k).board),
    decreases w.tuning.attempts - k,
{
    reveal(tried);
    if k < w.tuning.attempts {
        let job = attempt(w, b, cells, k as int);
        lemma_attempt_posed(w, b, cells, k as int);
        match searched(job) {
            Err(e) => {
                lemma_tried_claims(w, b, cells, e, k + 1);
            },
            Ok(path) => match conflict_of(path) {
                Some(bad) => {
                    lemma_tried_claims(w, barred(b, bad), cells, "path collides with itself"@, k + 1);
                },
                None => match repeaters_of(path, w.decay as int) {
                    Ok(sites) => {
                        let start = unbarred(b);
                        let after = path_laid(start, cells, w.net, path, w.material, w.decay as int).board;
                        lemma_grown(start, cells, w.net, path, sites, w.material, path.len());
                        lemma_laid_ok(start, cells, w.net, path, w.material, w.decay as int);
                        lemma_path_claims(job, start, after, path);
                    },
                    Err(e) => {
                        if path.len() > 2 {
                            lemma_tried_claims(w, barred(b, path[(path.len() / 2) as int]), cells, e, k + 1);
                        } else {
                            lemma_tried_claims(w, b, cells, e, k + 1);
                        }
                    },
                },
            },
        }
    }
}

proof fn lemma_path_claims(job: Job, b: Board, after: Board, path: Seq<Pos>)
    requires
        well_posed(job),
        searched(job) == Ok::<Seq<Pos>, Seq<char>>(path),
        job.board.owner == b.owner,
        grown_by(b, after, job.net, path),
        b.owner.contains_key(job.to),
        b.owner[job.to] == job.net,
        forall|i: int|
            0 <= i < job.sources.len() ==> b.owner.contains_key(#[trigger] job.sources[i])
                && b.owner[job.sources[i]] == job.net,
    ensures
        claims_kept(b, after),
{
    lemma_search(job);
    let way = choose|way: Seq<Node>| #[trigger] is_answer(job, way) && places(way) == path;
    assert forall|p: Pos|
        #![trigger b.claimed.contains(p)]
        b.claimed.contains(p) && b.owner.contains_key(p) implies after.claimed.contains(p)
        && after.owner.contains_key(p) && after.owner[p] == b.owner[p] by {
        assert(after.owner.contains_key(p));
        if after.owner[p] != b.owner[p] {
            lemma_node_roomy(job, path, way, p);
            if job.sources.contains(p) {
                let i = choose|i: int| 0 <= i < job.sources.len() && job.sources[i] == p;
                assert(b.owner.contains_key(job.sources[i]));
            }
        }
    }
}

/// Routing takes nothing from another net that was told to attach to it.
pub proof fn lemma_route_keeps_claims(w: Wanted, b: Board, cells: Map<Pos, Block>)
    requires
        can_route(w),
        board_ok(b),
        ends_claimed(w, b),
    ensures
        claims_kept(b, net_routed(w, b, cells).board),
        board_ok(net_routed(w, b, cells).board),
{
    let start = aimed(b, w.sources, w.to);
    lemma_tried_claims(w, start, cells, "no attempt made"@, 0);
    let after = net_routed(w, b, cells).board;
    assert forall|p: Pos|
        #![trigger b.claimed.contains(p)]
        b.claimed.contains(p) && b.owner.contains_key(p) implies after.claimed.contains(p)
        && after.owner.contains_key(p) && after.owner[p] == b.owner[p] by {
        assert(start.claimed.contains(p));
    }
}

/// Wire of other nets is still theirs, but for the `ends`, and wire of the net is its own.
pub open spec fn keeps_others(a: Board, b: Board, net: NetId, ends: Set<Pos>) -> bool {
    forall|p: Pos| #[trigger]
        a.owner.contains_key(p) && (a.owner[p] == net || !ends.contains(p)) ==> b.owner.contains_key(p)
            && b.owner[p] == a.owner[p]
}

/// Where a route begins and ends.
pub open spec fn route_ends(sources: Seq<Pos>, to: Pos) -> Set<Pos> {
    sources.to_set().insert(to)
}

proof fn lemma_tried_owners(w: Wanted, b: Board, cells: Map<Pos, Block>, last: Seq<char>, k: nat)
    requires
        can_route(w),
        board_ok(b),
    ensures
        keeps_others(b, tried(w, b, cells, last, k).board, w.net, route_ends(w.sources, w.to)),
    decreases w.tuning.attempts - k,
{
    reveal(tried);
    if k < w.tuning.attempts {
        let job = attempt(w, b, cells, k as int);
        lemma_attempt_posed(w, b, cells, k as int);
        match searched(job) {
            Err(e) => {
                lemma_tried_owners(w, b, cells, e, k + 1);
            },
            Ok(path) => match conflict_of(path) {
                Some(bad) => {
                    lemma_tried_owners(w, barred(b, bad), cells, "path collides with itself"@, k + 1);
                },
                None => match repeaters_of(path, w.decay as int) {
                    Ok(sites) => {
                        let start = unbarred(b);
                        let after = path_laid(start, cells, w.net, path, w.material, w.decay as int).board;
                        lemma_grown(start, cells, w.net, path, sites, w.material, path.len());
                        lemma_path_owners(job, start, after, path);
                    },
                    Err(e) => {
                        if path.len() > 2 {
                            lemma_tried_owners(w, barred(b, path[(path.len() / 2) as int]), cells, e, k + 1);
                        } else {
                            lemma_tried_owners(w, b, cells, e, k + 1);
                        }
                    },
                },
            },
        }
    }
}

proof fn lemma_path_owners(job: Job, b: Board, after: Board, path: Seq<Pos>)
    requires
        well_posed(job),
        searched(job) == Ok::<Seq<Pos>, Seq<char>>(path),
        job.board.owner == b.owner,
        grown_by(b, after, job.net, path),
    ensures
        keeps_others(b, after, job.net, route_ends(job.sources, job.to)),
{
    lemma_search(job);
    let way = choose|way: Seq<Node>| #[trigger] is_answer(job, way) && places(way) == path;
    assert forall|p: Pos| #[trigger]
        b.owner.contains_key(p) && (b.owner[p] == job.net || !route_ends(job.sources, job.to).contains(p)) implies after.owner.contains_key(
        p,
    ) && after.owner[p] == b.owner[p] by {
        assert(after.owner.contains_key(p));
        if after.owner[p] != b.owner[p] {
            lemma_node_roomy(job, path, way, p);
        }
    }
}

/// Routing takes no wire from another net, except where it begins or ends.
pub proof fn lemma_route_keeps_owners(w: Wanted, b: Board, cells: Map<Pos, Block>)
    requires
        can_route(w),
        board_ok(b),
    ensures
        keeps_others(b, net_routed(w, b, cells).board, w.net, route_ends(w.sources, w.to)),
{
    let start = aimed(b, w.sources, w.to);
    lemma_tried_owners(w, start, cells, "no attempt made"@, 0);
    let after = net_routed(w, b, cells).board;
    assert forall|p: Pos| #[trigger]
        b.owner.contains_key(p) && (b.owner[p] == w.net || !route_ends(w.sources, w.to).contains(p)) implies after.owner.contains_key(
        p,
    ) && after.owner[p] == b.owner[p] by {
        assert(start.owner.contains_key(p));
    }
}

/// A net may be told to attach to cells that touch no other net.
pub proof fn lemma_claim_keeps_apart(b: Board, p: Pos, net: NetId)
    requires
        nets_apart(b),
        !b.owner.contains_key(p),
        interior(p),
        forall|i: int| 0 <= i < 12 ==> !owned_by_other(b, (#[trigger] steps_from(p)[i]).0, net),
    ensures
        nets_apart(claimed_by(b, p, net)),
        claims_kept(b, claimed_by(b, p, net)),
{
    let after = claimed_by(b, p, net);
    assert forall|x: Pos, y: Pos|
        interior(x) && interior(y) && after.owner.contains_key(x) && after.owner.contains_key(y) && after.owner[x]
            != after.owner[y] && #[trigger] joins(x, y) implies is_fixed(after, x) && is_fixed(after, y) by {
        if x == p {
            let i = choose|i: int| 0 <= i < 12 && (#[trigger] steps_from(x)[i]).0 == y;
            assert(!owned_by_other(b, steps_from(p)[i].0, net));
        } else if y == p {
            lemma_joins_back(x, y);
            let i = choose|i: int| 0 <= i < 12 && (#[trigger] steps_from(y)[i]).0 == x;
            assert(!owned_by_other(b, steps_from(p)[i].0, net));
        } else {
            assert(joins(x, y));
        }
    }
}

// --- routed wires stay apart ---------------------------------------------------------------

/// Wires of two nets join only where one of them was placed by hand, or is at one of the
/// `pads`.
pub open spec fn routed_apart(b: Board, pads: Set<Pos>) -> bool {
    forall|p: Pos, q: Pos|
        interior(p) && interior(q) && b.owner.contains_key(p) && b.owner.contains_key(q) && b.owner[p]
            != b.owner[q] && #[trigger] joins(p, q) ==> is_fixed(b, p) || is_fixed(b, q) || pads.contains(p)
            || pads.contains(q)
}

/// What is done to a board joins no routed wires, and takes no claim back.
pub open spec fn still_apart(a: Board, b: Board) -> bool {
    &&& a.claimed.subset_of(b.claimed)
    &&& forall|pads: Set<Pos>| #[trigger] routed_apart(a, pads) ==> routed_apart(b, pads)
}

pub proof fn lemma_still_apart_trans(a: Board, b: Board, c: Board)
    requires
        still_apart(a, b),
        still_apart(b, c),
    ensures
        still_apart(a, c),
{
    assert forall|pads: Set<Pos>| #[trigger] routed_apart(a, pads) implies routed_apart(c, pads) by {
        assert(routed_apart(b, pads));
    }
}

/// Nets that are apart altogether are apart as far as they are routed.
pub proof fn lemma_apart_as_routed(b: Board, pads: Set<Pos>)
    requires
        nets_apart(b),
    ensures
        routed_apart(b, pads),
{
}

/// Boards with the same wires and claims are apart alike.
pub proof fn lemma_same_still_apart(a: Board, b: Board)
    requires
        a.owner == b.owner,
        a.claimed == b.claimed,
    ensures
        still_apart(a, b),
{
    assert forall|pads: Set<Pos>| #[trigger] routed_apart(a, pads) implies routed_apart(b, pads) by {
        lemma_barred_routed(a, b, pads);
    }
}

/// A claim joins no routed wires: the cell is placed by hand.
pub proof fn lemma_claim_still_apart(b: Board, p: Pos, net: NetId)
    ensures
        still_apart(b, claimed_by(b, p, net)),
{
    let after = claimed_by(b, p, net);
    assert forall|pads: Set<Pos>| #[trigger] routed_apart(b, pads) implies routed_apart(after, pads) by {
        assert forall|x: Pos, y: Pos|
            interior(x) && interior(y) && after.owner.contains_key(x) && after.owner.contains_key(y)
                && after.owner[x] != after.owner[y] && #[trigger] joins(x, y) implies is_fixed(after, x)
            || is_fixed(after, y) || pads.contains(x) || pads.contains(y) by {
            if x != p && y != p {
                assert(joins(x, y));
            }
        }
    }
}

/// The board has grown by wire of `net` on nodes of the path after its first.
spec fn grown_past(b: Board, after: Board, net: NetId, path: Seq<Pos>) -> bool {
    &&& after.claimed == b.claimed
    &&& forall|p: Pos| #[trigger]
        after.owner.contains_key(p) ==> {
            ||| b.owner.contains_key(p) && after.owner[p] == b.owner[p]
            ||| after.owner[p] == net && exists|i: int| 0 < i < path.len() && #[trigger] path[i] == p
        }
}

proof fn lemma_grown_past(
    b: Board,
    cells: Map<Pos, Block>,
    net: NetId,
    path: Seq<Pos>,
    sites: Seq<int>,
    mat: Material,
    n: nat,
)
    requires
        n <= path.len(),
    ensures
        grown_past(b, nodes_laid(b, cells, net, path, sites, mat, n).board, net, path),
    decreases n,
{
    if n > 1 {
        lemma_grown_past(b, cells, net, path, sites, mat, (n - 1) as nat);
        assert(path[n - 1] == path[n - 1]);
    }
}

/// A new wire touches no other net, except at its end.
proof fn lemma_past_apart(job: Job, b: Board, after: Board, path: Seq<Pos>, way: Seq<Node>, p: Pos, q: Pos)
    requires
        well_posed(job),
        is_answer(job, way),
        places(way) == path,
        job.board.owner == b.owner,
        exists|i: int| 0 < i < path.len() && #[trigger] path[i] == p,
        p != job.to,
        joins(p, q) || joins(q, p),
        interior(q),
    ensures
        b.owner.contains_key(q) ==> b.owner[q] == job.net,
{
    let i = choose|i: int| 0 < i < path.len() && #[trigger] path[i] == p;
    assert(way[i].0 == p);
    assert(steps_to(job, way[i - 1], way[i]));
    assert(placeable(job.board, job.cells, p, job.net));
    if !joins(p, q) {
        lemma_joins_back(q, p);
    }
    let k = choose|k: int| 0 <= k < 12 && (#[trigger] steps_from(p)[k]).0 == q;
    assert(may_join(job.board, steps_from(p)[k].0, job.net));
}

proof fn lemma_path_routed(job: Job, b: Board, after: Board, path: Seq<Pos>, pads: Set<Pos>)
    requires
        well_posed(job),
        searched(job) == Ok::<Seq<Pos>, Seq<char>>(path),
        routed_apart(b, pads),
        job.board.owner == b.owner,
        grown_past(b, after, job.net, path),
        pads.contains(job.to) || b.claimed.contains(job.to),
    ensures
        routed_apart(after, pads),
{
    lemma_search(job);
    let way = choose|way: Seq<Node>| #[trigger] is_answer(job, way) && places(way) == path;
    assert forall|p: Pos, q: Pos|
        interior(p) && interior(q) && after.owner.contains_key(p) && after.owner.contains_key(q) && after.owner[p]
            != after.owner[q] && #[trigger] joins(p, q) implies is_fixed(after, p) || is_fixed(after, q)
        || pads.contains(p) || pads.contains(q) by {
        let old_p = b.owner.contains_key(p) && after.owner[p] == b.owner[p];
        let old_q = b.owner.contains_key(q) && after.owner[q] == b.owner[q];
        if p == job.to || q == job.to {
        } else if old_p && old_q {
            assert(joins(p, q));
        } else if !old_p {
            lemma_past_apart(job, b, after, path, way, p, q);
        } else {
            lemma_past_apart(job, b, after, path, way, q, p);
        }
    }
}

proof fn lemma_tried_routed(w: Wanted, b: Board, cells: Map<Pos, Block>, last: Seq<char>, k: nat, pads: Set<Pos>)
    requires
        can_route(w),
        board_ok(b),
        routed_apart(b, pads),
        pads.contains(w.to) || b.claimed.contains(w.to),
    ensures
        routed_apart(tried(w, b, cells, last, k).board, pads),
        tried(w, b, cells, last, k).board.claimed == b.claimed,
    decreases w.tuning.attempts - k,
{
    reveal(tried);
    if k < w.tuning.attempts {
        let job = attempt(w, b, cells, k as int);
        lemma_attempt_posed(w, b, cells, k as int);
        match searched(job) {
            Err(e) => {
                lemma_tried_routed(w, b, cells, e, k + 1, pads);
            },
            Ok(path) => match conflict_of(path) {
                Some(bad) => {
                    lemma_barred_routed(b, barred(b, bad), pads);
                    lemma_tried_routed(w, barred(b, bad), cells, "path collides with itself"@, k + 1, pads);
                },
                None => match repeaters_of(path, w.decay as int) {
                    Ok(sites) => {
                        let start = unbarred(b);
                        lemma_barred_routed(b, start, pads);
                        lemma_grown_past(start, cells, w.net, path, sites, w.material, path.len());
                        lemma_path_routed(
                            job,
                            start,
                            path_laid(start, cells, w.net, path, w.material, w.decay as int).board,
                            path,
                            pads,
                        );
                    },
                    Err(e) => {
                        if path.len() > 2 {
                            let next = barred(b, path[(path.len() / 2) as int]);
                            lemma_barred_routed(b, next, pads);
                            lemma_tried_routed(w, next, cells, e, k + 1, pads);
                        } else {
                            lemma_tried_routed(w, b, cells, e, k + 1, pads);
                        }
                    },
                },
            },
        }
    } else {
        lemma_barred_routed(b, unbarred(b), pads);
    }
}

/// Boards with the same wires and claims are apart alike.
proof fn lemma_barred_routed(a: Board, b: Board, pads: Set<Pos>)
    requires
        routed_apart(a, pads),
        a.owner == b.owner,
        a.claimed == b.claimed,
    ensures
        routed_apart(b, pads),
{
    assert forall|p: Pos, q: Pos|
        interior(p) && interior(q) && b.owner.contains_key(p) && b.owner.contains_key(q) && b.owner[p]
            != b.owner[q] && #[trigger] joins(p, q) implies is_fixed(b, p) || is_fixed(b, q) || pads.contains(p)
        || pads.contains(q) by {
        assert(joins(p, q));
    }
}

/// Routing joins no routed wires of different nets, except where it ends, if that is a
/// pad.
pub proof fn lemma_route_keeps_routed(w: Wanted, b: Board, cells: Map<Pos, Block>, pads: Set<Pos>)
    requires
        can_route(w),
        board_ok(b),
        routed_apart(b, pads),
        pads.contains(w.to) || b.claimed.contains(w.to),
    ensures
        routed_apart(net_routed(w, b, cells).board, pads),
        net_routed(w, b, cells).board.claimed == b.claimed,
{
    let start = aimed(b, w.sources, w.to);
    lemma_barred_routed(b, start, pads);
    lemma_tried_routed(w, start, cells, "no attempt made"@, 0, pads);
}

/// Routing leaves the claims.
pub proof fn lemma_route_leaves_claims(w: Wanted, b: Board, cells: Map<Pos, Block>)
    requires
        can_route(w),
        board_ok(b),
    ensures
        net_routed(w, b, cells).board.claimed == b.claimed,
{
    let all = Set::new(|p: Pos| true);
    assert(routed_apart(b, all));
    lemma_route_keeps_routed(w, b, cells, all);
}

// --- routes stay within range ------------------------------------------------------------

proof fn lemma_nodes_span(b: Board, cells: Map<Pos, Block>, net: NetId, path: Seq<Pos>, sites: Seq<int>, mat: Material, k: nat, n: int)
    requires
        n <= 0x5000_0000,
        spans(cells, n),
        k <= path.len(),
        forall|i: int| 0 < i < path.len() ==> within(#[trigger] path[i], n - 1),
    ensures
        spans(nodes_laid(b, cells, net, path, sites, mat, k).cells, n),
    decreases k,
{
    if k > 1 {
        lemma_nodes_span(b, cells, net, path, sites, mat, (k - 1) as nat, n);
        assert(within(path[k - 1], n - 1));
    }
}

proof fn lemma_tried_span(w: Wanted, b: Board, cells: Map<Pos, Block>, last: Seq<char>, k: nat, n: int)
    requires
        within(w.bounds.0, n - 1),
        within(w.bounds.1, n - 1),
        n <= 0x5000_0000,
        can_route(w),
        board_ok(b),
        spans(cells, n),
    ensures
        spans(tried(w, b, cells, last, k).cells, n),
        board_ok(tried(w, b, cells, last, k).board),
    decreases w.tuning.attempts - k,
{
    reveal(tried);
    if k < w.tuning.attempts {
        let job = attempt(w, b, cells, k as int);
        lemma_attempt_posed(w, b, cells, k as int);
        match searched(job) {
            Err(e) => {
                lemma_tried_span(w, b, cells, e, k + 1, n);
            },
            Ok(path) => match conflict_of(path) {
                Some(bad) => {
                    lemma_tried_span(w, barred(b, bad), cells, "path collides with itself"@, k + 1, n);
                },
                None => match repeaters_of(path, w.decay as int) {
                    Ok(sites) => {
                        lemma_search(job);
                        let way = choose|way: Seq<Node>| #[trigger] is_answer(job, way) && places(way) == path;
                        assert forall|i: int| 0 < i < path.len() implies within(#[trigger] path[i], n - 1) by {
                            assert(path[i] == way[i].0);
                            assert(steps_to(job, way[i - 1], way[i]));
                            assert(inside_job(job, path[i]));
                        }
                        lemma_nodes_span(unbarred(b), cells, w.net, path, sites, w.material, path.len(), n);
                        lemma_laid_ok(unbarred(b), cells, w.net, path, w.material, w.decay as int);
                    },
                    Err(e) => {
                        if path.len() > 2 {
                            lemma_tried_span(w, barred(b, path[(path.len() / 2) as int]), cells, e, k + 1, n);
                        } else {
                            lemma_tried_span(w, b, cells, e, k + 1, n);
                        }
                    },
                },
            },
        }
    }
}

/// Routing stays within range.
pub proof fn lemma_routed_span(w: Wanted, b: Board, cells: Map<Pos, Block>, n: int)
    requires
        within(w.bounds.0, n - 1),
        within(w.bounds.1, n - 1),
        n <= 0x5000_0000,
        can_route(w),
        board_ok(b),
        spans(cells, n),
    ensures
        spans(net_routed(w, b, cells).cells, n),
        board_ok(net_routed(w, b, cells).board),
{
    lemma_tried_span(w, aimed(b, w.sources, w.to), cells, "no attempt made"@, 0, n);
}

} // verus!
