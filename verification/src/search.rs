//! The router's search for a path: best-first over positions and the directions
//! they are entered in.
use crate::heap::{is_top, lemma_top, ranks_below, top_of, Frontier};
use crate::route::{abs, placeable, roomy, steps_from, Board, NetId};
use crate::text::{decimal, signed};
use crate::world::{interior, pos_label, Block, Pos};
use vstd::multiset::Multiset;
use vstd::prelude::*;

verus! {

/// Penalty for changing direction. Without it all flat moves are alike, so a
/// diagonal route degenerates into a staircase of alternating X and Z steps. That
/// path is the same length but has no three collinear nodes, and a repeater needs
/// exactly that - so an unpenalised route can be impossible to keep alive over
/// distance.
pub const TURN_COST: i32 = 25;

/// What a search is to find.
pub struct Job {
    pub board: Board,
    pub cells: Map<Pos, Block>,
    pub net: NetId,
    pub sources: Seq<Pos>,
    pub to: Pos,
    /// The corners of the box that the search stays in.
    pub lo: Pos,
    pub hi: Pos,
    /// The price of a step that changes Y.
    pub slope_cost: int,
    /// The weight of the heuristic, in tenths.
    pub weight: int,
    /// How many states may be expanded.
    pub budget: nat,
    pub slope_floor: int,
}

/// A state of the search: a position, and the number of the direction it was
/// entered in; four where the search began there.
pub type Node = (Pos, u8);

pub open spec fn inside(lo: Pos, hi: Pos, p: Pos) -> bool {
    lo.0 <= p.0 <= hi.0 && lo.1 <= p.1 <= hi.1 && lo.2 <= p.2 <= hi.2
}

/// Lower bound on the remaining *cost*, not on the remaining steps.
///
/// A slope step covers one horizontal and one vertical block at once, so at
/// least `vert` of the remaining steps must be slopes and at least
/// `horiz - vert` of them must be flat.
pub open spec fn heuristic(a: Pos, b: Pos, slope_floor: int) -> int {
    let horiz = abs(a.0 - b.0) + abs(a.2 - b.2);
    let vert = abs(a.1 - b.1);
    vert * slope_floor + if horiz > vert {
        (horiz - vert) * 10
    } else {
        0
    }
}

/// The weighted heuristic.
pub open spec fn estimate(job: Job, p: Pos) -> int {
    crate::route::quotient(heuristic(p, job.to, job.slope_floor) * job.weight, 10)
}

/// A state to look at, by what it has cost and what it is estimated to cost yet.
pub open spec fn front(job: Job, n: Node, cost: int) -> Frontier {
    Frontier {
        priority: (-(cost + estimate(job, n.0))) as i128,
        cost: cost as i128,
        pos: n.0,
        dir: n.1,
    }
}

/// A path may enter `q`. The destination is the net's own already, so it is exempt
/// from the rule for wires; everything else must be virgin.
pub open spec fn enterable(job: Job, q: Pos) -> bool {
    &&& inside(job.lo, job.hi, q)
    &&& if q == job.to {
        !job.board.blocked.contains(q) && !job.board.scratch.contains(q)
    } else {
        placeable(job.board, job.cells, q, job.net)
    }
}

/// What contested ground costs more.
pub open spec fn contention(b: Board, q: Pos) -> int {
    if b.history.contains_key(q) {
        b.history[q] as int
    } else {
        0
    }
}

/// The price of the step from `n` to `m`. Level moves are cheapest; slopes and
/// turns are discouraged.
pub open spec fn step_cost(job: Job, n: Node, m: Node) -> int {
    (if m.0.1 == n.0.1 {
        10
    } else {
        job.slope_cost
    }) + (if n.1 != 4 && n.1 != m.1 {
        TURN_COST as int
    } else {
        0
    }) + contention(job.board, m.0)
}

/// Where a search stands.
pub struct Search {
    /// The cheapest known cost of each state.
    pub best: Map<Node, int>,
    /// The state before each state on the cheapest known way.
    pub came: Map<Node, Node>,
    pub open: Multiset<Frontier>,
    pub expansions: nat,
    /// How close the search ever got, and where.
    pub closest: int,
    pub closest_at: Pos,
}

/// Nothing seen yet.
pub open spec fn unstarted(job: Job) -> Search {
    Search {
        best: Map::empty(),
        came: Map::empty(),
        open: Multiset::empty(),
        expansions: 0,
        closest: i32::MAX as int,
        closest_at: job.to,
    }
}

/// The first `n` sources are to be looked at. Every source is an equally valid
/// place to leave from.
pub open spec fn started(job: Job, n: nat) -> Search
    decreases n,
{
    if n == 0 {
        unstarted(job)
    } else {
        let s = started(job, (n - 1) as nat);
        let node = (job.sources[n - 1], 4u8);
        Search { best: s.best.insert(node, 0), open: s.open.insert(front(job, node, 0)), ..s }
    }
}

/// The step from `f` to `m`, if it is open and cheaper than what is known.
pub open spec fn relaxed_by(job: Job, f: Frontier, s: Search, m: Node) -> Search {
    let next = f.cost + step_cost(job, (f.pos, f.dir), m);
    if enterable(job, m.0) && !(s.best.contains_key(m) && s.best[m] <= next) {
        Search {
            best: s.best.insert(m, next),
            came: s.came.insert(m, (f.pos, f.dir)),
            open: s.open.insert(front(job, m, next)),
            ..s
        }
    } else {
        s
    }
}

/// The first `n` steps from `f`.
pub open spec fn relaxed(job: Job, f: Frontier, s: Search, n: nat) -> Search
    decreases n,
{
    if n == 0 {
        s
    } else {
        relaxed_by(job, f, relaxed(job, f, s, (n - 1) as nat), steps_from(f.pos)[n - 1])
    }
}

/// The most promising state is taken from the open list.
pub open spec fn popped(job: Job, s: Search, f: Frontier) -> Search {
    let h = heuristic(f.pos, job.to, job.slope_floor);
    Search {
        open: s.open.remove(f),
        closest: if h < s.closest {
            h
        } else {
            s.closest
        },
        closest_at: if h < s.closest {
            f.pos
        } else {
            s.closest_at
        },
        ..s
    }
}

/// The way to a state, over at most `fuel` steps.
pub open spec fn trail(came: Map<Node, Node>, n: Node, fuel: nat) -> Seq<Node>
    decreases fuel,
{
    if fuel > 0 && came.contains_key(n) {
        trail(came, came[n], (fuel - 1) as nat).push(n)
    } else {
        seq![n]
    }
}

/// The positions of a way.
pub open spec fn places(way: Seq<Node>) -> Seq<Pos> {
    way.map_values(|n: Node| n.0)
}

pub open spec fn no_route_text(to: Pos, sources: nat) -> Seq<char> {
    "no route to "@ + pos_label(to) + " from any of "@ + decimal(sources) + " source(s)"@
}

pub open spec fn gave_up_text(expansions: nat, closest: int, at: Pos) -> Seq<char> {
    "router gave up after "@ + decimal(expansions) + " expansions (closest approach "@ + signed(
        closest,
    ) + " at "@ + pos_label(at) + ")"@
}

/// The measure by which a search ends: every expansion adds at most twelve states.
pub open spec fn left(job: Job, s: Search) -> nat {
    (13 * (if s.expansions <= job.budget {
        job.budget + 1 - s.expansions
    } else {
        0
    }) + s.open.len()) as nat
}

/// What a search finds from where it stands.
pub open spec fn found(job: Job, s: Search) -> Result<Seq<Pos>, Seq<char>>
    decreases left(job, s),
    via found_ends
{
    if s.open.len() == 0 {
        Err(no_route_text(job.to, job.sources.len()))
    } else {
        let f = top_of(s.open);
        let t = popped(job, s, f);
        let node = (f.pos, f.dir);
        if !s.open.contains(f) {
            Err(Seq::empty())
        } else if f.pos == job.to {
            Ok(places(trail(s.came, node, f.cost as nat)))
        } else if s.best.contains_key(node) && f.cost > s.best[node] {
            found(job, t)
        } else if s.expansions + 1 > job.budget {
            Err(gave_up_text(s.expansions + 1, t.closest, t.closest_at))
        } else {
            found(job, relaxed(job, f, Search { expansions: s.expansions + 1, ..t }, 12))
        }
    }
}

#[via_fn]
proof fn found_ends(job: Job, s: Search) {
    let f = top_of(s.open);
    if s.open.len() > 0 && s.open.contains(f) {
        let t = popped(job, s, f);
        assert(t.open.len() == s.open.len() - 1);
        lemma_relaxed_len(job, f, Search { expansions: s.expansions + 1, ..t }, 12);
    }
}

pub proof fn lemma_relaxed_len(job: Job, f: Frontier, s: Search, n: nat)
    ensures
        relaxed(job, f, s, n).open.len() <= s.open.len() + n,
        relaxed(job, f, s, n).expansions == s.expansions,
    decreases n,
{
    if n > 0 {
        lemma_relaxed_len(job, f, s, (n - 1) as nat);
    }
}

/// What the router's search finds.
pub open spec fn searched(job: Job) -> Result<Seq<Pos>, Seq<char>> {
    found(job, started(job, job.sources.len()))
}

// --- what is true of every search -----------------------------------------------------

/// Steps have a positive price, and positions have room.
pub open spec fn well_posed(job: Job) -> bool {
    &&& job.budget < 0xffff_ffff_ffff_ffff
    &&& 0 < job.slope_cost <= i32::MAX
    &&& -0x8000_0000 <= job.weight <= i32::MAX
    &&& -0x8000_0000 <= job.slope_floor <= i32::MAX
    &&& forall|q: Pos| #[trigger] job.board.history.contains_key(q) ==> job.board.history[q] >= 0
    &&& forall|i: int| 0 <= i < job.sources.len() ==> interior(#[trigger] job.sources[i])
    &&& roomy(job.lo)
    &&& roomy(job.hi)
}

/// `m` is one dust step from `n`, and may be entered.
pub open spec fn steps_to(job: Job, n: Node, m: Node) -> bool {
    enterable(job, m.0) && exists|i: int| 0 <= i < 12 && #[trigger] steps_from(n.0)[i] == m
}

/// A state at which the search began.
pub open spec fn is_source(job: Job, n: Node) -> bool {
    n.1 == 4 && job.sources.contains(n.0)
}

/// What is known is right: costs are not negative, ways lead over open steps from
/// the sources, and cost more with every step.
pub open spec fn ways_hold(job: Job, s: Search) -> bool {
    &&& forall|n: Node| #[trigger]
        s.best.contains_key(n) ==> s.best[n] >= 0 && (n.1 == 4 ==> s.best[n] == 0)
    &&& forall|n: Node| #[trigger]
        s.best.contains_key(n) ==> is_source(job, n) || (s.came.contains_key(n) && n.1 < 4)
    &&& forall|n: Node| #[trigger]
        s.came.contains_key(n) ==> {
            &&& s.best.contains_key(n)
            &&& s.best.contains_key(s.came[n])
            &&& steps_to(job, s.came[n], n)
            &&& s.best[s.came[n]] + step_cost(job, s.came[n], n) <= s.best[n]
            &&& n.1 < 4
        }
}

/// What is open is known, at a cost no better than the best.
pub open spec fn open_holds(job: Job, s: Search) -> bool {
    forall|f: Frontier| #[trigger]
        s.open.contains(f) ==> {
            &&& s.best.contains_key((f.pos, f.dir))
            &&& f.cost >= s.best[(f.pos, f.dir)]
            &&& f == front(job, (f.pos, f.dir), f.cost as int)
            &&& f.dir <= 4
            &&& 0 <= f.cost <= s.expansions * 0x1_0000_0000_00
        }
}

/// A state is still to be looked at, at its best cost.
pub open spec fn is_open(job: Job, s: Search, n: Node) -> bool {
    s.open.contains(front(job, n, s.best[n]))
}

/// Every step from a state leads to a known state that costs no more than that way.
pub open spec fn is_expanded(job: Job, s: Search, n: Node) -> bool {
    forall|m: Node| #[trigger]
        steps_to(job, n, m) ==> s.best.contains_key(m) && s.best[m] <= s.best[n] + step_cost(job, n, m)
}

/// Every known state is open or expanded; the target is never expanded.
pub open spec fn all_seen(job: Job, s: Search) -> bool {
    &&& forall|n: Node| #[trigger]
        s.best.contains_key(n) ==> is_open(job, s, n) || (n.0 != job.to && is_expanded(job, s, n))
    &&& forall|i: int|
        0 <= i < job.sources.len() ==> s.best.contains_key((#[trigger] job.sources[i], 4u8))
}

/// What holds of a search at every point.
pub open spec fn sound(job: Job, s: Search) -> bool {
    ways_hold(job, s) && open_holds(job, s) && all_seen(job, s) && s.expansions <= job.budget
}

/// A way that the router could take: from a source, over open steps.
pub open spec fn is_way(job: Job, way: Seq<Node>) -> bool {
    &&& way.len() > 0
    &&& is_source(job, way[0])
    &&& forall|i: int| 0 < i < way.len() ==> steps_to(job, way[i - 1], #[trigger] way[i])
}

/// The price of a way.
pub open spec fn way_cost(job: Job, way: Seq<Node>) -> int
    decreases way.len(),
{
    if way.len() <= 1 {
        0
    } else {
        way_cost(job, way.drop_last()) + step_cost(job, way[way.len() - 2], way.last())
    }
}

/// A step has a positive price.
pub proof fn lemma_step_cost(job: Job, n: Node, m: Node)
    requires
        well_posed(job),
    ensures
        1 <= step_cost(job, n, m) <= 0x1_0000_0000_00,
{
}

proof fn lemma_steps_move(p: Pos, i: int)
    requires
        interior(p),
        0 <= i < 12,
    ensures
        steps_from(p)[i].0 != p,
        steps_from(p)[i].1 < 4,
{
}

/// A known way is one that the router could take, at no more than its known cost.
pub proof fn lemma_trail(job: Job, s: Search, n: Node, fuel: nat)
    requires
        well_posed(job),
        ways_hold(job, s),
        s.best.contains_key(n),
        s.best[n] <= fuel,
    ensures
        is_way(job, trail(s.came, n, fuel)),
        trail(s.came, n, fuel).last() == n,
        way_cost(job, trail(s.came, n, fuel)) <= s.best[n],
    decreases fuel,
{
    let way = trail(s.came, n, fuel);
    if s.came.contains_key(n) {
        let before = s.came[n];
        lemma_step_cost(job, before, n);
        assert(s.best.contains_key(before));
        lemma_trail(job, s, before, (fuel - 1) as nat);
        let rest = trail(s.came, before, (fuel - 1) as nat);
        assert(way.drop_last() =~= rest);
        assert forall|i: int| 0 < i < way.len() implies steps_to(job, way[i - 1], #[trigger] way[i]) by {
            if i < rest.len() {
                assert(way[i] == rest[i] && way[i - 1] == rest[i - 1]);
            }
        }
    }
}

/// The search is sound from the start.
pub proof fn lemma_started(job: Job, n: nat)
    requires
        well_posed(job),
        n <= job.sources.len(),
    ensures
        ways_hold(job, started(job, n)),
        open_holds(job, started(job, n)),
        forall|m: Node| #[trigger]
            started(job, n).best.contains_key(m) ==> is_open(job, started(job, n), m) && started(
                job,
                n,
            ).best[m] == 0 && m.1 == 4,
        forall|i: int|
            0 <= i < n ==> started(job, n).best.contains_key((#[trigger] job.sources[i], 4u8)),
        started(job, n).expansions == 0,
        n == job.sources.len() ==> sound(job, started(job, n)),
    decreases n,
{
    if n > 0 {
        let before = started(job, (n - 1) as nat);
        let s = started(job, n);
        lemma_started(job, (n - 1) as nat);
        let node = (job.sources[n - 1], 4u8);
        assert(job.sources.contains(node.0));
        assert forall|m: Node| #[trigger] s.best.contains_key(m) implies is_open(job, s, m) && s.best[m] == 0
            && m.1 == 4 by {
            if m != node {
                assert(before.best.contains_key(m));
                assert(is_open(job, before, m));
            }
        }
        assert forall|f: Frontier| #[trigger] s.open.contains(f) implies {
            &&& s.best.contains_key((f.pos, f.dir))
            &&& f.cost >= s.best[(f.pos, f.dir)]
            &&& f == front(job, (f.pos, f.dir), f.cost as int)
            &&& f.dir <= 4
            &&& 0 <= f.cost <= s.expansions * 0x1_0000_0000_00
        } by {
            if f != front(job, node, 0) {
                assert(before.open.contains(f));
            }
        }
    }
}

/// What holds while the steps from `f` are taken: it is expanded as far as the first
/// `n` steps go.
spec fn expanding(job: Job, f: Frontier, s: Search, n: nat) -> bool {
    let node = (f.pos, f.dir);
    &&& ways_hold(job, s)
    &&& open_holds(job, s)
    &&& 0 < s.expansions <= job.budget
    &&& f.cost <= (s.expansions - 1) * 0x1_0000_0000_00
    &&& f.cost >= 0
    &&& f.dir <= 4
    &&& s.best.contains_key(node)
    &&& s.best[node] == f.cost
    &&& f.pos != job.to
    &&& interior(f.pos)
    &&& forall|m: Node| #[trigger]
        s.best.contains_key(m) ==> m == node || is_open(job, s, m) || (m.0 != job.to && is_expanded(
            job,
            s,
            m,
        ))
    &&& forall|i: int|
        0 <= i < job.sources.len() ==> s.best.contains_key((#[trigger] job.sources[i], 4u8))
    &&& forall|i: int|
        0 <= i < n && enterable(job, (#[trigger] steps_from(f.pos)[i]).0) ==> s.best.contains_key(
            steps_from(f.pos)[i],
        ) && s.best[steps_from(f.pos)[i]] <= f.cost + step_cost(job, node, steps_from(f.pos)[i])
}

/// Ways stay right when a cheaper way to `m` is noted.
proof fn lemma_relax_ways(job: Job, f: Frontier, s: Search, m: Node, next: int)
    requires
        ways_hold(job, s),
        open_holds(job, s),
        s.best.contains_key((f.pos, f.dir)),
        s.best[(f.pos, f.dir)] == f.cost,
        m != (f.pos, f.dir),
        m.1 < 4,
        steps_to(job, (f.pos, f.dir), m),
        next == f.cost + step_cost(job, (f.pos, f.dir), m),
        0 <= next <= s.expansions * 0x1_0000_0000_00,
        s.expansions <= 0xffff_ffff_ffff_ffff,
        s.best.contains_key(m) ==> next < s.best[m],
    ensures
        ({
            let t = Search {
                best: s.best.insert(m, next),
                came: s.came.insert(m, (f.pos, f.dir)),
                open: s.open.insert(front(job, m, next)),
                ..s
            };
            ways_hold(job, t) && open_holds(job, t)
        }),
{
    let node = (f.pos, f.dir);
    let t = Search {
        best: s.best.insert(m, next),
        came: s.came.insert(m, (f.pos, f.dir)),
        open: s.open.insert(front(job, m, next)),
        ..s
    };
    assert(s.expansions * 0x1_0000_0000_00 <= 0xffff_ffff_ffff_ffff * 0x1_0000_0000_00) by (nonlinear_arith)
        requires
            s.expansions <= 0xffff_ffff_ffff_ffff,
    ;
    assert forall|x: Node| #[trigger] t.best.contains_key(x) implies t.best[x] >= 0 && (x.1 == 4 ==> t.best[x] == 0) && (is_source(
        job,
        x,
    ) || (t.came.contains_key(x) && x.1 < 4)) by {
        if x != m {
            assert(s.best.contains_key(x));
        }
    }
    assert forall|x: Node| #[trigger] t.came.contains_key(x) implies {
        &&& t.best.contains_key(x)
        &&& t.best.contains_key(t.came[x])
        &&& steps_to(job, t.came[x], x)
        &&& t.best[t.came[x]] + step_cost(job, t.came[x], x) <= t.best[x]
        &&& x.1 < 4
    } by {
        if x != m {
            assert(s.came.contains_key(x));
            if s.came[x] == m {
                assert(s.best.contains_key(m));
                assert(t.best[m] <= s.best[m]);
            }
        }
    }
    assert forall|g: Frontier| #[trigger] t.open.contains(g) implies {
        &&& t.best.contains_key((g.pos, g.dir))
        &&& g.cost >= t.best[(g.pos, g.dir)]
        &&& g == front(job, (g.pos, g.dir), g.cost as int)
        &&& g.dir <= 4
        &&& 0 <= g.cost <= t.expansions * 0x1_0000_0000_00
    } by {
        if g != front(job, m, next) {
            assert(s.open.contains(g));
        }
    }
}

#[verifier::spinoff_prover]
#[verifier::rlimit(60)]
proof fn lemma_relax_step(job: Job, f: Frontier, s: Search, n: nat)
    requires
        well_posed(job),
        expanding(job, f, s, n),
        n < 12,
    ensures
        expanding(job, f, relaxed_by(job, f, s, steps_from(f.pos)[n as int]), n + 1),
{
    let node = (f.pos, f.dir);
    let m = steps_from(f.pos)[n as int];
    let next = f.cost + step_cost(job, node, m);
    let t = relaxed_by(job, f, s, m);
    lemma_steps_move(f.pos, n as int);
    lemma_step_cost(job, node, m);
    if enterable(job, m.0) && !(s.best.contains_key(m) && s.best[m] <= next) {
        assert(steps_to(job, node, m));
        assert(next <= s.expansions * 0x1_0000_0000_00);
        assert(m != node);
        lemma_relax_ways(job, f, s, m, next);
        assert forall|x: Node| #[trigger] t.best.contains_key(x) implies x == node || is_open(job, t, x)
            || (x.0 != job.to && is_expanded(job, t, x)) by {
            if x != m && x != node {
                assert(s.best.contains_key(x));
                if is_open(job, s, x) {
                    assert(is_open(job, t, x));
                } else {
                    lemma_still_expanded(job, s, t, x, m);
                }
            }
        }
    }
    assert forall|i: int| 0 <= i < n + 1 && enterable(job, (#[trigger] steps_from(f.pos)[i]).0) implies t.best.contains_key(
        steps_from(f.pos)[i],
    ) && t.best[steps_from(f.pos)[i]] <= f.cost + step_cost(job, node, steps_from(f.pos)[i]) by {
        if i < n {
            assert(s.best.contains_key(steps_from(f.pos)[i]));
        }
    }
}

proof fn lemma_still_expanded(job: Job, s: Search, t: Search, x: Node, m: Node)
    requires
        is_expanded(job, s, x),
        x != m,
        t.best.contains_key(m),
        t.best == s.best.insert(m, t.best[m]),
        s.best.contains_key(m) ==> t.best[m] <= s.best[m],
    ensures
        is_expanded(job, t, x),
{
    assert forall|y: Node| #[trigger] steps_to(job, x, y) implies t.best.contains_key(y) && t.best[y]
        <= t.best[x] + step_cost(job, x, y) by {
        assert(s.best.contains_key(y));
    }
}

proof fn lemma_relax(job: Job, f: Frontier, s: Search, n: nat)
    requires
        well_posed(job),
        expanding(job, f, s, 0),
        n <= 12,
    ensures
        expanding(job, f, relaxed(job, f, s, n), n),
        relaxed(job, f, s, n).expansions == s.expansions,
    decreases n,
{
    if n > 0 {
        lemma_relax(job, f, s, (n - 1) as nat);
        lemma_relax_step(job, f, relaxed(job, f, s, (n - 1) as nat), (n - 1) as nat);
    }
}

/// A search stays sound when a state that is out of date is passed over.
pub proof fn lemma_pass(job: Job, s: Search, f: Frontier)
    requires
        well_posed(job),
        sound(job, s),
        s.open.contains(f),
        f.cost > s.best[(f.pos, f.dir)],
    ensures
        sound(job, popped(job, s, f)),
{
    let t = popped(job, s, f);
    assert forall|g: Frontier| #[trigger] t.open.contains(g) implies s.open.contains(g) by {}
    assert forall|n: Node| #[trigger] t.best.contains_key(n) implies is_open(job, t, n) || (n.0 != job.to
        && is_expanded(job, t, n)) by {
        assert(s.best.contains_key(n));
        if is_open(job, s, n) {
            let g = front(job, n, s.best[n]);
            assert(s.open.contains(g));
            if g == f {
                assert((f.pos, f.dir) == n);
                assert(s.best[n] <= f.cost);
                assert(g.cost == s.best[n] as i128);
            }
            assert(t.open.contains(g));
        } else {
            assert(is_expanded(job, s, n));
            assert(is_expanded(job, t, n));
        }
    }
}

/// A search stays sound when a state is expanded.
pub proof fn lemma_expand(job: Job, s: Search, f: Frontier)
    requires
        well_posed(job),
        sound(job, s),
        s.open.contains(f),
        f.cost <= s.best[(f.pos, f.dir)],
        f.pos != job.to,
        interior(f.pos),
        s.expansions + 1 <= job.budget,
    ensures
        sound(
            job,
            relaxed(job, f, Search { expansions: s.expansions + 1, ..popped(job, s, f) }, 12),
        ),
{
    let node = (f.pos, f.dir);
    let t = Search { expansions: s.expansions + 1, ..popped(job, s, f) };
    assert forall|g: Frontier| #[trigger] t.open.contains(g) implies s.open.contains(g) by {}
    assert(f == front(job, node, f.cost as int));
    assert forall|n: Node| #[trigger] t.best.contains_key(n) implies n == node || is_open(job, t, n) || (
    n.0 != job.to && is_expanded(job, t, n)) by {
        assert(s.best.contains_key(n));
        if is_open(job, s, n) {
            let g = front(job, n, s.best[n]);
            assert(s.open.contains(g));
            if n != node {
                assert(g.pos == n.0 && g.dir == n.1);
                assert(g != f);
                assert(t.open.contains(g));
            }
        } else {
            assert(is_expanded(job, s, n));
            assert(is_expanded(job, t, n));
        }
    }
    assert(expanding(job, f, t, 0));
    lemma_relax(job, f, t, 12);
    let u = relaxed(job, f, t, 12);
    assert(is_expanded(job, u, node)) by {
        assert forall|m: Node| #[trigger] steps_to(job, node, m) implies u.best.contains_key(m) && u.best[m]
            <= u.best[node] + step_cost(job, node, m) by {
            let i = choose|i: int| 0 <= i < 12 && #[trigger] steps_from(node.0)[i] == m;
            assert(enterable(job, steps_from(f.pos)[i].0));
        }
    }
}

/// A search that has nothing left to look at has missed no way.
pub proof fn lemma_exhausted(job: Job, s: Search, way: Seq<Node>)
    requires
        sound(job, s),
        s.open.len() == 0,
        is_way(job, way),
    ensures
        way.last().0 != job.to,
{
    lemma_way_known(job, s, way);
    let n = way.last();
    if n.0 == job.to {
        assert(is_open(job, s, n));
        assert(s.open.contains(front(job, n, s.best[n])));
        lemma_empty_multiset(s.open, front(job, n, s.best[n]));
    }
}

proof fn lemma_empty_multiset(m: Multiset<Frontier>, f: Frontier)
    requires
        m.contains(f),
    ensures
        m.len() > 0,
{
    assert(m.remove(f).len() == m.len() - 1);
}

proof fn lemma_way_known(job: Job, s: Search, way: Seq<Node>)
    requires
        sound(job, s),
        s.open.len() == 0,
        is_way(job, way),
    ensures
        s.best.contains_key(way.last()),
    decreases way.len(),
{
    if way.len() == 1 {
        let i = choose|i: int| 0 <= i < job.sources.len() && job.sources[i] == way[0].0;
        assert(s.best.contains_key((job.sources[i], 4u8)));
        assert(way[0] == (job.sources[i], 4u8));
    } else {
        let rest = way.drop_last();
        assert(is_way(job, rest)) by {
            assert forall|i: int| 0 < i < rest.len() implies steps_to(job, rest[i - 1], #[trigger] rest[i]) by {
                assert(way[i] == rest[i]);
            }
        }
        lemma_way_known(job, s, rest);
        let n = rest.last();
        if is_open(job, s, n) {
            lemma_empty_multiset(s.open, front(job, n, s.best[n]));
        }
        assert(is_expanded(job, s, n));
        assert(way[way.len() - 1] == way.last());
        assert(steps_to(job, n, way.last()));
    }
}

/// A nonempty open list has a highest entry.
pub proof fn lemma_has_top(open: Multiset<Frontier>)
    requires
        open.len() > 0,
    ensures
        is_top(open, top_of(open)),
    decreases open.len(),
{
    let x = open.choose();
    assert(open.count(x) > 0);
    let rest = open.remove(x);
    if rest.len() == 0 {
        assert forall|y: Frontier| #[trigger] open.contains(y) implies !ranks_below(x, y) by {
            if y != x {
                assert(rest.contains(y));
                lemma_empty_multiset(rest, y);
            }
        }
        assert(is_top(open, x));
    } else {
        lemma_has_top(rest);
        let t = top_of(rest);
        let best = if ranks_below(t, x) {
            x
        } else {
            t
        };
        assert forall|y: Frontier| #[trigger] open.contains(y) implies !ranks_below(best, y) by {
            if y != x {
                assert(rest.contains(y));
            }
        }
        assert(open.contains(best));
        assert(is_top(open, best));
    }
}

/// Known states have room around them.
pub proof fn lemma_known_interior(job: Job, s: Search, n: Node)
    requires
        well_posed(job),
        ways_hold(job, s),
        s.best.contains_key(n),
    ensures
        interior(n.0),
        n.1 <= 4,
{
    if is_source(job, n) {
        let i = choose|i: int| 0 <= i < job.sources.len() && job.sources[i] == n.0;
        assert(interior(job.sources[i]));
    } else {
        assert(s.came.contains_key(n));
        assert(enterable(job, n.0));
    }
}

/// The heuristic is exact and never overestimates.
pub open spec fn exact(job: Job) -> bool {
    job.weight == 10 && 10 <= job.slope_floor <= job.slope_cost
}

/// A step lowers the estimate by no more than its price.
proof fn lemma_consistent(job: Job, n: Node, m: Node)
    requires
        well_posed(job),
        exact(job),
        interior(n.0),
        steps_to(job, n, m),
    ensures
        estimate(job, n.0) <= step_cost(job, n, m) + estimate(job, m.0),
        estimate(job, n.0) == heuristic(n.0, job.to, job.slope_floor),
        estimate(job, m.0) == heuristic(m.0, job.to, job.slope_floor),
{
    let k = job.slope_floor;
    let i = choose|i: int| 0 <= i < 12 && #[trigger] steps_from(n.0)[i] == m;
    lemma_estimate(job, n.0);
    lemma_estimate(job, m.0);
    let (p, q) = (n.0, m.0);
    let to = job.to;
    let v = abs(p.1 - to.1);
    let w = abs(q.1 - to.1);
    assert(abs(q.0 - p.0) + abs(q.2 - p.2) == 1 && abs(q.1 - p.1) <= 1);
    if w == v {
        assert(v * k == w * k);
    } else if w == v - 1 {
        assert(w * k == v * k - k) by (nonlinear_arith)
            requires
                w == v - 1,
        ;
    } else {
        assert(w == v + 1);
        assert(w * k == v * k + k) by (nonlinear_arith)
            requires
                w == v + 1,
        ;
    }
}

proof fn lemma_estimate(job: Job, p: Pos)
    requires
        exact(job),
    ensures
        estimate(job, p) == heuristic(p, job.to, job.slope_floor),
        estimate(job, p) >= 0,
        p == job.to ==> estimate(job, p) == 0,
{
    let v = abs(p.1 - job.to.1);
    assert(v * job.slope_floor >= 0) by (nonlinear_arith)
        requires
            v >= 0,
            job.slope_floor >= 10,
    ;
    if p == job.to {
        assert(v * job.slope_floor == 0) by (nonlinear_arith)
            requires
                v == 0,
        ;
    }
}

/// On any way to the target there is a state still open, at a cost that leaves the
/// whole way at least as dear as the state is estimated to be.
proof fn lemma_open_on_way(job: Job, s: Search, way: Seq<Node>, total: int)
    requires
        well_posed(job),
        exact(job),
        sound(job, s),
        is_way(job, way),
        way_cost(job, way) + estimate(job, way.last().0) <= total,
    ensures
        (s.best.contains_key(way.last()) && s.best[way.last()] <= way_cost(job, way)) || exists|g: Frontier| #[trigger]
            s.open.contains(g) && g.cost + estimate(job, g.pos) <= total,
    decreases way.len(),
{
    if way.len() == 1 {
        let i = choose|i: int| 0 <= i < job.sources.len() && job.sources[i] == way[0].0;
        assert(s.best.contains_key((job.sources[i], 4u8)));
        assert(way[0] == (job.sources[i], 4u8));
    } else {
        let rest = way.drop_last();
        let n = rest.last();
        let m = way.last();
        assert(is_way(job, rest)) by {
            assert forall|i: int| 0 < i < rest.len() implies steps_to(job, rest[i - 1], #[trigger] rest[i]) by {
                assert(way[i] == rest[i]);
            }
        }
        assert(way[way.len() - 1] == m && way[way.len() - 2] == n);
        assert(steps_to(job, n, m));
        lemma_way_interior(job, rest);
        lemma_consistent(job, n, m);
        lemma_open_on_way(job, s, rest, total);
        if s.best.contains_key(n) && s.best[n] <= way_cost(job, rest) {
            if is_open(job, s, n) {
                let g = front(job, n, s.best[n]);
                lemma_open_cost(job, s, n);
                assert(s.open.contains(g));
                assert(g.cost + estimate(job, g.pos) <= total);
            } else {
                assert(is_expanded(job, s, n));
            }
        }
    }
}

proof fn lemma_open_cost(job: Job, s: Search, n: Node)
    requires
        well_posed(job),
        sound(job, s),
        s.best.contains_key(n),
        is_open(job, s, n),
    ensures
        front(job, n, s.best[n]).cost == s.best[n],
{
    let g = front(job, n, s.best[n]);
    assert(s.open.contains(g));
    assert(g.cost >= s.best[n]);
    // The cost of what is open is bounded, so the best cost is, and is held exactly.
    assert(s.expansions * 0x1_0000_0000_00 <= 0xffff_ffff_ffff_ffff * 0x1_0000_0000_00) by (nonlinear_arith)
        requires
            s.expansions <= 0xffff_ffff_ffff_ffff,
    ;
}

proof fn lemma_way_interior(job: Job, way: Seq<Node>)
    requires
        well_posed(job),
        is_way(job, way),
    ensures
        interior(way.last().0),
{
    if way.len() == 1 {
        let i = choose|i: int| 0 <= i < job.sources.len() && job.sources[i] == way[0].0;
        assert(interior(job.sources[i]));
    } else {
        assert(way[way.len() - 1] == way.last());
        assert(enterable(job, way.last().0));
    }
}

/// The first way that an exact search finds is as cheap as any.
proof fn lemma_cheapest(job: Job, s: Search, f: Frontier, way: Seq<Node>)
    requires
        well_posed(job),
        exact(job),
        sound(job, s),
        is_top(s.open, f),
        f.pos == job.to,
        is_way(job, way),
        way.last().0 == job.to,
    ensures
        s.best[(f.pos, f.dir)] <= way_cost(job, way),
{
    let total = way_cost(job, way);
    lemma_estimate(job, job.to);
    lemma_open_on_way(job, s, way, total);
    let n = way.last();
    if !(exists|g: Frontier| #[trigger] s.open.contains(g) && g.cost + estimate(job, g.pos) <= total) {
        assert(is_open(job, s, n));
        lemma_open_cost(job, s, n);
        let g = front(job, n, s.best[n]);
        assert(s.open.contains(g) && g.cost + estimate(job, g.pos) <= total);
    }
    let g = choose|g: Frontier| #[trigger] s.open.contains(g) && g.cost + estimate(job, g.pos) <= total;
    assert(!ranks_below(f, g));
    lemma_priority(job, s, f);
    lemma_priority(job, s, g);
}

proof fn lemma_priority(job: Job, s: Search, f: Frontier)
    requires
        well_posed(job),
        exact(job),
        sound(job, s),
        s.open.contains(f),
    ensures
        f.priority == -(f.cost + estimate(job, f.pos)),
{
    lemma_estimate(job, f.pos);
    let v = abs(f.pos.1 - job.to.1);
    assert(v * job.slope_floor <= 0x1_0000_0000 * 0x8000_0000) by (nonlinear_arith)
        requires
            0 <= v <= 0x1_0000_0000,
            0 <= job.slope_floor <= 0x8000_0000,
    ;
    assert(s.expansions * 0x1_0000_0000_00 <= 0xffff_ffff_ffff_ffff * 0x1_0000_0000_00) by (nonlinear_arith)
        requires
            s.expansions <= 0xffff_ffff_ffff_ffff,
    ;
}

/// `way` leads to the target, and where the search is exact no way is cheaper.
pub open spec fn is_answer(job: Job, way: Seq<Node>) -> bool {
    &&& is_way(job, way)
    &&& way.last().0 == job.to
    &&& exact(job) ==> forall|other: Seq<Node>| #[trigger]
        is_way(job, other) && other.last().0 == job.to ==> way_cost(job, way) <= way_cost(job, other)
}

/// No way leads to the target.
pub open spec fn unreachable_target(job: Job) -> bool {
    forall|way: Seq<Node>| #[trigger] is_way(job, way) ==> way.last().0 != job.to
}

/// What a search may answer: a way that the router could take - the cheapest, where
/// the search is exact; that there is none; or that it has looked at more states
/// than it may.
pub open spec fn is_outcome(job: Job, r: Result<Seq<Pos>, Seq<char>>) -> bool {
    match r {
        Ok(path) => exists|way: Seq<Node>| #[trigger] is_answer(job, way) && places(way) == path,
        Err(m) => {
            ||| m == no_route_text(job.to, job.sources.len()) && unreachable_target(job)
            ||| exists|closest: int, at: Pos| m == #[trigger] gave_up_text(job.budget + 1, closest, at)
        },
    }
}

/// Every search answers rightly.
pub proof fn lemma_outcome(job: Job, s: Search)
    requires
        well_posed(job),
        sound(job, s),
    ensures
        is_outcome(job, found(job, s)),
    decreases left(job, s),
{
    if s.open.len() == 0 {
        assert forall|way: Seq<Node>| #[trigger] is_way(job, way) implies way.last().0 != job.to by {
            lemma_exhausted(job, s, way);
        }
    } else {
        lemma_has_top(s.open);
        let f = top_of(s.open);
        let t = popped(job, s, f);
        let node = (f.pos, f.dir);
        assert(t.open.len() == s.open.len() - 1);
        if f.pos == job.to {
            let way = trail(s.came, node, f.cost as nat);
            lemma_trail(job, s, node, f.cost as nat);
            if exact(job) {
                assert forall|other: Seq<Node>| #[trigger] is_way(job, other) && other.last().0 == job.to implies way_cost(
                    job,
                    way,
                ) <= way_cost(job, other) by {
                    lemma_cheapest(job, s, f, other);
                }
            }
            assert(is_answer(job, way));
        } else if f.cost > s.best[node] {
            lemma_pass(job, s, f);
            lemma_outcome(job, t);
        } else if s.expansions + 1 > job.budget {
            assert(s.expansions + 1 == job.budget + 1);
        } else {
            let u = Search { expansions: s.expansions + 1, ..t };
            lemma_known_interior(job, s, node);
            lemma_expand(job, s, f);
            lemma_relaxed_len(job, f, u, 12);
            lemma_outcome(job, relaxed(job, f, u, 12));
        }
    }
}

/// The router's search answers rightly: it finds a way exactly when it does not say
/// that there is none or that it gave up, and an exact search finds the cheapest.
pub proof fn lemma_search(job: Job)
    requires
        well_posed(job),
    ensures
        is_outcome(job, searched(job)),
{
    lemma_started(job, job.sources.len());
    lemma_outcome(job, started(job, job.sources.len()));
}

// --- running a search ------------------------------------------------------------------

/// The search has come to `s`.
#[verifier::opaque]
pub open spec fn reaches(job: Job, s: Search) -> bool {
    well_posed(job) && sound(job, s) && searched(job) == found(job, s)
}

pub proof fn lemma_reaches_start(job: Job)
    requires
        well_posed(job),
    ensures
        reaches(job, started(job, job.sources.len())),
        started(job, job.sources.len()).expansions == 0,
        started(job, job.sources.len()).closest == i32::MAX,
        started(job, job.sources.len()).closest_at == job.to,
{
    reveal(reaches);
    lemma_started(job, job.sources.len());
    lemma_started_closest(job, job.sources.len());
}

proof fn lemma_started_closest(job: Job, n: nat)
    ensures
        started(job, n).closest == i32::MAX,
        started(job, n).closest_at == job.to,
    decreases n,
{
    if n > 0 {
        lemma_started_closest(job, (n - 1) as nat);
    }
}

proof fn lemma_relaxed_closest(job: Job, f: Frontier, s: Search, n: nat)
    ensures
        relaxed(job, f, s, n).closest == s.closest,
        relaxed(job, f, s, n).closest_at == s.closest_at,
        relaxed(job, f, s, n).expansions == s.expansions,
    decreases n,
{
    if n > 0 {
        lemma_relaxed_closest(job, f, s, (n - 1) as nat);
    }
}

/// Nothing is left to look at.
pub proof fn lemma_reaches_end(job: Job, s: Search)
    requires
        reaches(job, s),
        s.open.len() == 0,
    ensures
        searched(job) == Err::<Seq<Pos>, Seq<char>>(no_route_text(job.to, job.sources.len())),
{
    reveal(reaches);
}

/// The most promising state is looked at.
pub proof fn lemma_reaches_top(job: Job, s: Search, f: Frontier)
    requires
        reaches(job, s),
        is_top(s.open, f),
    ensures
        interior(f.pos),
        f.dir <= 4,
        0 <= f.cost <= 0xffff_ffff_ffff_ffff * 0x1_0000_0000_00,
        s.best.contains_key((f.pos, f.dir)),
        s.best[(f.pos, f.dir)] <= f.cost,
        ways_hold(job, s),
        f.pos == job.to ==> searched(job) == Ok::<Seq<Pos>, Seq<char>>(
            places(trail(s.came, (f.pos, f.dir), f.cost as nat)),
        ),
{
    reveal(reaches);
    lemma_top(s.open, f);
    lemma_known_interior(job, s, (f.pos, f.dir));
    lemma_empty_multiset(s.open, f);
    assert(s.expansions * 0x1_0000_0000_00 <= 0xffff_ffff_ffff_ffff * 0x1_0000_0000_00) by (nonlinear_arith)
        requires
            s.expansions <= 0xffff_ffff_ffff_ffff,
    ;
}

/// A state that is out of date is passed over.
pub proof fn lemma_reaches_past(job: Job, s: Search, f: Frontier)
    requires
        reaches(job, s),
        is_top(s.open, f),
        f.pos != job.to,
        f.cost > s.best[(f.pos, f.dir)],
    ensures
        reaches(job, popped(job, s, f)),
        left(job, popped(job, s, f)) < left(job, s),
{
    reveal(reaches);
    lemma_top(s.open, f);
    lemma_empty_multiset(s.open, f);
    lemma_pass(job, s, f);
}

/// No more states may be expanded.
pub proof fn lemma_reaches_limit(job: Job, s: Search, f: Frontier)
    requires
        reaches(job, s),
        is_top(s.open, f),
        f.pos != job.to,
        f.cost <= s.best[(f.pos, f.dir)],
        s.expansions >= job.budget,
    ensures
        searched(job) == Err::<Seq<Pos>, Seq<char>>(
            gave_up_text(
                s.expansions + 1,
                popped(job, s, f).closest,
                popped(job, s, f).closest_at,
            ),
        ),
{
    reveal(reaches);
    lemma_top(s.open, f);
    lemma_empty_multiset(s.open, f);
}

/// A state is expanded.
pub proof fn lemma_reaches_on(job: Job, s: Search, f: Frontier)
    requires
        reaches(job, s),
        is_top(s.open, f),
        f.pos != job.to,
        f.cost <= s.best[(f.pos, f.dir)],
        s.expansions < job.budget,
    ensures
        ({
            let u = Search { expansions: s.expansions + 1, ..popped(job, s, f) };
            let t = relaxed(job, f, u, 12);
            &&& reaches(job, t)
            &&& left(job, t) < left(job, s)
            &&& t.expansions == s.expansions + 1
            &&& t.closest == u.closest
            &&& t.closest_at == u.closest_at
        }),
{
    reveal(reaches);
    lemma_top(s.open, f);
    lemma_empty_multiset(s.open, f);
    lemma_known_interior(job, s, (f.pos, f.dir));
    lemma_expand(job, s, f);
    let u = Search { expansions: s.expansions + 1, ..popped(job, s, f) };
    lemma_relaxed_len(job, f, u, 12);
    lemma_relaxed_closest(job, f, u, 12);
}

} // verus!
