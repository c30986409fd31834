//! Whether a path that a search has found can be built: that it does not collide
//! with itself, and where its repeaters go.
use crate::posmap::PosMap;
use crate::route::{abs, steps, steps_from};
use crate::tech::MAX_RUN;
use crate::text::{push_signed, signed};
use crate::world::{interior, Pos};
use vstd::prelude::*;
use vstd::string::*;

verus! {

// --- collisions ------------------------------------------------------------------------

/// The node `j` of a path is less than three levels above another node in its
/// column. Each wire node claims three cells in its column: the dust, the substrate
/// below it, and the slope clearance above it.
pub open spec fn clashes(path: Seq<Pos>, j: int) -> bool {
    0 <= j < path.len() && exists|i: int|
        0 <= i < path.len() && i != j && (#[trigger] path[i]).0 == path[j].0 && path[i].2 == path[j].2
            && 0 <= path[j].1 - path[i].1 < 3
}

/// `a` comes before `b` by column, and then by level.
pub open spec fn column_below(a: Pos, b: Pos) -> bool {
    a.0 < b.0 || (a.0 == b.0 && (a.2 < b.2 || (a.2 == b.2 && a.1 < b.1)))
}

/// `p` is the first node, by column and then by level, that clashes.
pub open spec fn first_clash(path: Seq<Pos>, p: Pos) -> bool {
    &&& exists|j: int| #[trigger] clashes(path, j) && path[j] == p
    &&& forall|j: int| #[trigger] clashes(path, j) ==> !column_below(path[j], p)
}

/// The step `k` from node `i` leads to a node of the path that is neither the one
/// before nor the one after: the wire would short to a different part of itself.
pub open spec fn touches_itself(path: Seq<Pos>, i: int, k: int) -> bool {
    exists|j: int|
        0 <= j < path.len() && #[trigger] path[j] == steps_from(path[i])[k].0 && abs(i - j) > 1
}

/// The first cell, from the `n`th step of the path on, where it touches itself.
pub open spec fn touch_from(path: Seq<Pos>, n: nat) -> Option<Pos>
    decreases 12 * path.len() - n,
{
    if n >= 12 * path.len() {
        None
    } else if touches_itself(path, (n / 12) as int, (n % 12) as int) {
        Some(steps_from(path[(n / 12) as int])[(n % 12) as int].0)
    } else {
        touch_from(path, n + 1)
    }
}

/// Where a path collides with itself, if it does.
pub open spec fn conflict_of(path: Seq<Pos>) -> Option<Pos> {
    if exists|j: int| clashes(path, j) {
        Some(choose|p: Pos| first_clash(path, p))
    } else {
        touch_from(path, 0)
    }
}

proof fn lemma_first_clash(path: Seq<Pos>, p: Pos)
    requires
        first_clash(path, p),
    ensures
        conflict_of(path) == Some(p),
{
    let q = choose|q: Pos| first_clash(path, q);
    assert(first_clash(path, q));
    let i = choose|j: int| #[trigger] clashes(path, j) && path[j] == p;
    let j = choose|j: int| #[trigger] clashes(path, j) && path[j] == q;
    assert(clashes(path, i) && clashes(path, j));
    assert(!column_below(path[i], q) && !column_below(path[j], p));
}

/// A path without a conflict keeps three levels between nodes of one column, and
/// touches itself only where one node follows another.
pub proof fn lemma_no_conflict(path: Seq<Pos>)
    requires
        conflict_of(path) is None,
    ensures
        forall|i: int, j: int|
            0 <= i < path.len() && 0 <= j < path.len() && i != j && (#[trigger] path[i]).0 == (
            #[trigger] path[j]).0 && path[i].2 == path[j].2 ==> abs(path[i].1 - path[j].1) >= 3,
        forall|i: int, j: int, k: int|
            0 <= i < path.len() && 0 <= j < path.len() && 0 <= k < 12 && #[trigger] path[j] == (
            #[trigger] steps_from(path[i])[k]).0 ==> abs(i - j) <= 1,
{
    assert forall|i: int, j: int|
        0 <= i < path.len() && 0 <= j < path.len() && i != j && (#[trigger] path[i]).0 == (
        #[trigger] path[j]).0 && path[i].2 == path[j].2 implies abs(path[i].1 - path[j].1) >= 3 by {
        assert(!clashes(path, i));
        assert(!clashes(path, j));
    }
    assert forall|i: int, j: int, k: int|
        0 <= i < path.len() && 0 <= j < path.len() && 0 <= k < 12 && #[trigger] path[j] == (
        #[trigger] steps_from(path[i])[k]).0 implies abs(i - j) <= 1 by {
        lemma_touch_none(path, 0, (12 * i + k) as nat);
        assert((12 * i + k) / 12 == i && (12 * i + k) % 12 == k);
        if abs(i - j) > 1 {
            assert(touches_itself(path, i, k));
        }
    }
}

proof fn lemma_touch_none(path: Seq<Pos>, n: nat, m: nat)
    requires
        touch_from(path, n) is None,
        n <= m < 12 * path.len(),
    ensures
        !touches_itself(path, (m / 12) as int, (m % 12) as int),
    decreases m - n,
{
    if n < m {
        lemma_touch_none(path, n + 1, m);
    }
}

/// Does node `j` clash with another?
fn has_clash(path: &[Pos], j: usize) -> (r: bool)
    requires
        j < path@.len(),
    ensures
        r == clashes(path@, j as int),
{
    let b: Pos = path[j];
    for i in 0..path.len()
        invariant
            j < path@.len(),
            b == path@[j as int],
            forall|k: int|
                0 <= k < i && k != j ==> !((#[trigger] path@[k]).0 == b.0 && path@[k].2 == b.2 && 0 <= b.1
                    - path@[k].1 < 3),
    {
        let a: Pos = path[i];
        let d: i64 = b.1 as i64 - a.1 as i64;
        if i != j && a.0 == b.0 && a.2 == b.2 && 0 <= d && d < 3 {
            assert(path@[i as int].0 == path@[j as int].0);
            return true;
        }
    }
    false
}

fn is_column_below(a: Pos, b: Pos) -> (r: bool)
    ensures
        r == column_below(a, b),
{
    if a.0 != b.0 {
        a.0 < b.0
    } else if a.2 != b.2 {
        a.2 < b.2
    } else {
        a.1 < b.1
    }
}

/// A path must not collide with itself.
///
/// The subtle case is a gap of exactly two levels: the upper node's substrate lands
/// in the lower node's clearance cell, silently breaking the slope that was supposed
/// to connect into it. The search explores states rather than whole paths, so it
/// cannot see this; catching it here lets the router retry with a different shape
/// instead of emitting a circuit that is subtly disconnected.
pub fn first_conflict(path: &[Pos]) -> (r: Option<Pos>)
    requires
        forall|i: int| 0 <= i < path@.len() ==> interior(#[trigger] path@[i]),
    ensures
        r == conflict_of(path@),
{
    let mut least: Option<Pos> = None;
    for j in 0..path.len()
        invariant
            match least {
                Some(p) => {
                    &&& exists|k: int| 0 <= k < j && #[trigger] clashes(path@, k) && path@[k] == p
                    &&& forall|k: int| 0 <= k < j && #[trigger] clashes(path@, k) ==> !column_below(path@[k], p)
                },
                None => forall|k: int| 0 <= k < j ==> !#[trigger] clashes(path@, k),
            },
    {
        if has_clash(path, j) {
            assert(clashes(path@, j as int));
            least = match least {
                Some(p) => {
                    if is_column_below(path[j], p) {
                        Some(path[j])
                    } else {
                        Some(p)
                    }
                },
                None => Some(path[j]),
            };
        }
    }
    match least {
        Some(p) => {
            proof {
                assert(first_clash(path@, p));
                lemma_first_clash(path@, p);
            }
            return Some(p);
        },
        None => {},
    }
    assert(forall|k: int| !#[trigger] clashes(path@, k));
    first_touch(path)
}

/// The first cell where a path touches itself.
fn first_touch(path: &[Pos]) -> (r: Option<Pos>)
    requires
        forall|i: int| 0 <= i < path@.len() ==> interior(#[trigger] path@[i]),
        forall|k: int| !#[trigger] clashes(path@, k),
    ensures
        r == touch_from(path@, 0),
{
    let ghost ps = path@;
    let mut index: PosMap<usize> = PosMap::new();
    for i in 0..path.len()
        invariant
            ps == path@,
            forall|k: int| !#[trigger] clashes(ps, k),
            forall|p: Pos| #[trigger] index@.contains_key(p) ==> index@[p] < i && ps[index@[p] as int] == p,
            forall|j: int| 0 <= j < i ==> index@.contains_key(#[trigger] ps[j]) && index@[ps[j]] == j,
    {
        let p: Pos = path[i];
        assert forall|j: int| 0 <= j < i implies #[trigger] ps[j] != p by {
            if ps[j] == p {
                assert(ps[j].0 == ps[i as int].0);
                assert(clashes(ps, i as int));
            }
        }
        index.insert(p, i);
    }
    for i in 0..path.len()
        invariant
            ps == path@,
            forall|i: int| 0 <= i < path@.len() ==> interior(#[trigger] path@[i]),
            forall|p: Pos| #[trigger] index@.contains_key(p) ==> index@[p] < ps.len() && ps[index@[p] as int] == p,
            forall|j: int| 0 <= j < ps.len() ==> index@.contains_key(#[trigger] ps[j]) && index@[ps[j]] == j,
            touch_from(ps, 0) == touch_from(ps, (12 * i) as nat),
    {
        let around = steps(path[i]);
        for k in 0..12usize
            invariant
                i < ps.len(),
                ps == path@,
                around@ == steps_from(ps[i as int]),
                forall|p: Pos| #[trigger] index@.contains_key(p) ==> index@[p] < ps.len() && ps[index@[p] as int] == p,
                forall|j: int| 0 <= j < ps.len() ==> index@.contains_key(#[trigger] ps[j]) && index@[ps[j]] == j,
                touch_from(ps, 0) == touch_from(ps, (12 * i + k) as nat),
        {
            let c: Pos = around[k].0;
            assert((12 * i + k) / 12 == i && (12 * i + k) % 12 == k);
            match index.get(c) {
                Some(j) => {
                    let gap: usize = if i > *j {
                        i - *j
                    } else {
                        *j - i
                    };
                    // Consecutive nodes are meant to touch; anything else is
                    // the wire shorting to a different part of itself.
                    if gap > 1 {
                        assert(ps[*j as int] == steps_from(ps[i as int])[k as int].0);
                        return Some(c);
                    }
                    assert(!touches_itself(ps, i as int, k as int)) by {
                        if touches_itself(ps, i as int, k as int) {
                            let m = choose|m: int|
                                0 <= m < ps.len() && #[trigger] ps[m] == steps_from(ps[i as int])[k as int].0 && abs(
                                    i - m,
                                ) > 1;
                            assert(index@[ps[m]] == m);
                        }
                    }
                },
                None => {
                    assert(!touches_itself(ps, i as int, k as int)) by {
                        if touches_itself(ps, i as int, k as int) {
                            let m = choose|m: int|
                                0 <= m < ps.len() && #[trigger] ps[m] == steps_from(ps[i as int])[k as int].0 && abs(
                                    i - m,
                                ) > 1;
                            assert(index@.contains_key(ps[m]));
                        }
                    }
                },
            }
        }
    }
    None
}

// --- repeaters ---------------------------------------------------------------------------

/// A repeater conducts along one axis only, so it needs the node before and after
/// it to be collinear and at the same Y: it sits in the middle of a straight, flat
/// run.
pub open spec fn is_site(path: Seq<Pos>, i: int) -> bool {
    &&& 0 < i
    &&& i + 1 < path.len()
    &&& path[i].1 == path[i - 1].1
    &&& path[i].1 == path[i + 1].1
    &&& path[i + 1].0 - path[i].0 == path[i].0 - path[i - 1].0
    &&& path[i + 1].2 - path[i].2 == path[i].2 - path[i - 1].2
}

/// Where repeaters stand so far.
pub struct Plan {
    pub sites: Seq<int>,
    /// How far the signal has travelled since it was last restored.
    pub since: int,
    /// The last site that could take a repeater since then.
    pub last: Option<int>,
}

pub open spec fn no_flat_text(since: int) -> Seq<char> {
    "route ran "@ + signed(since) + " blocks with no flat run to hold a repeater"@
}

pub open spec fn far_apart_text() -> Seq<char> {
    "repeater sites are too far apart"@
}

/// The plan over the first `n` steps of a path. Whenever the signal is about to decay
/// past the budget, the *last* legal site seen gets a repeater.
pub open spec fn planned(path: Seq<Pos>, decay: int, n: nat) -> Result<Plan, Seq<char>>
    decreases n,
{
    if n == 0 {
        Ok(Plan { sites: Seq::empty(), since: decay, last: None })
    } else {
        match planned(path, decay, (n - 1) as nat) {
            Err(m) => Err(m),
            Ok(p) => {
                let since = p.since + 1;
                let last = if is_site(path, n as int) {
                    Some(n as int)
                } else {
                    p.last
                };
                if since < MAX_RUN {
                    Ok(Plan { sites: p.sites, since, last })
                } else {
                    match last {
                        None => Err(no_flat_text(since)),
                        Some(site) => if n - site >= MAX_RUN {
                            Err(far_apart_text())
                        } else {
                            Ok(Plan { sites: p.sites.push(site), since: n - site, last: None })
                        },
                    }
                }
            },
        }
    }
}

/// The number of steps of a path.
pub open spec fn last_step(path: Seq<Pos>) -> nat {
    if path.len() == 0 {
        0
    } else {
        (path.len() - 1) as nat
    }
}

/// The repeaters of a path.
pub open spec fn repeaters_of(path: Seq<Pos>, decay: int) -> Result<Seq<int>, Seq<char>> {
    match planned(path, decay, last_step(path)) {
        Ok(p) => Ok(p.sites),
        Err(m) => Err(m),
    }
}

/// What a plan promises: sites are legal and in order, at most [`MAX_RUN`] blocks
/// apart, and the signal never travels as far as that after the last.
pub open spec fn keeps_alive(path: Seq<Pos>, decay: int, n: int, p: Plan) -> bool {
    &&& p.since < MAX_RUN
    &&& forall|i: int| 0 <= i < p.sites.len() ==> is_site(path, #[trigger] p.sites[i])
    &&& forall|i: int|
        0 < i < p.sites.len() ==> 0 < (#[trigger] p.sites[i]) - p.sites[i - 1] <= MAX_RUN
    &&& p.sites.len() == 0 ==> p.since == decay + n
    &&& p.sites.len() > 0 ==> 0 < p.sites[0] && decay + p.sites[0] <= MAX_RUN && p.sites.last() <= n
        && p.since == n - p.sites.last()
    &&& match p.last {
        Some(s) => is_site(path, s) && s <= n && (p.sites.len() > 0 ==> s > p.sites.last()),
        None => true,
    }
}

/// The signal stays alive along a path with its repeaters planned.
pub proof fn lemma_planned(path: Seq<Pos>, decay: int, n: nat)
    requires
        0 <= decay < MAX_RUN,
        planned(path, decay, n) is Ok,
    ensures
        keeps_alive(path, decay, n as int, planned(path, decay, n)->Ok_0),
    decreases n,
{
    if n > 0 {
        lemma_planned(path, decay, (n - 1) as nat);
        let before = planned(path, decay, (n - 1) as nat)->Ok_0;
        let after = planned(path, decay, n)->Ok_0;
        if before.since + 1 >= MAX_RUN {
            let site = if is_site(path, n as int) {
                n as int
            } else {
                before.last->0
            };
            assert(after.sites == before.sites.push(site));
            assert forall|i: int| 0 < i < after.sites.len() implies 0 < (#[trigger] after.sites[i]) - after.sites[i - 1]
                <= MAX_RUN by {
                if i < before.sites.len() {
                    assert(after.sites[i] == before.sites[i]);
                    assert(after.sites[i - 1] == before.sites[i - 1]);
                }
            }
            assert forall|i: int| 0 <= i < after.sites.len() implies is_site(path, #[trigger] after.sites[i]) by {
                if i < before.sites.len() {
                    assert(after.sites[i] == before.sites[i]);
                }
            }
        }
    }
}

/// Repeaters at `sites` carry a signal over the first `n` steps of a path: they stand on
/// legal sites in order, at most [`MAX_RUN`] blocks apart, and the signal travels less
/// far than that after the last.
pub open spec fn good_sites(path: Seq<Pos>, decay: int, n: int, sites: Seq<int>) -> bool {
    &&& forall|i: int| 0 <= i < sites.len() ==> is_site(path, #[trigger] sites[i])
    &&& forall|i: int| 0 < i < sites.len() ==> 0 < (#[trigger] sites[i]) - sites[i - 1] <= MAX_RUN
    &&& sites.len() == 0 ==> decay + n < MAX_RUN
    &&& sites.len() > 0 ==> decay + sites[0] <= MAX_RUN && sites.last() <= n && n - sites.last() < MAX_RUN
}

/// A good list of sites for a whole path, and none is shorter.
pub open spec fn fewest_sites(path: Seq<Pos>, decay: int, sites: Seq<int>) -> bool {
    &&& good_sites(path, decay, last_step(path) as int, sites)
    &&& forall|other: Seq<int>| #[trigger]
        good_sites(path, decay, last_step(path) as int, other) ==> sites.len() <= other.len()
}

/// Where the signal was last restored, as a step of the path.
spec fn restored(decay: int, sites: Seq<int>) -> int {
    if sites.len() == 0 {
        -decay
    } else {
        sites.last()
    }
}

/// Whatever step a signal is restored at, a good list of sites restores it again before
/// it has travelled too far, if the path goes on that long.
proof fn lemma_next_site(path: Seq<Pos>, decay: int, n: int, sites: Seq<int>, from: int, t: int) -> (s: int)
    requires
        good_sites(path, decay, n, sites),
        -decay <= from,
        from + MAX_RUN <= n,
        0 <= t <= sites.len(),
        t > 0 ==> sites[t - 1] <= from,
    ensures
        from < s <= from + MAX_RUN,
        is_site(path, s),
    decreases sites.len() - t,
{
    assert(t < sites.len());
    if sites[t] <= from {
        lemma_next_site(path, decay, n, sites, from, t + 1)
    } else {
        sites[t]
    }
}

/// The last legal site since the signal was restored is the one remembered, and no good
/// list of sites has got as far with as few repeaters.
spec fn stays_ahead(path: Seq<Pos>, decay: int, n: int, p: Plan, sites: Seq<int>) -> bool {
    &&& p.sites.len() <= sites.len()
    &&& forall|i: int| 0 <= i < p.sites.len() ==> sites[i] <= #[trigger] p.sites[i]
    &&& forall|s: int|
        #[trigger] is_site(path, s) && restored(decay, p.sites) < s <= n ==> p.last is Some && s <= p.last->0
}

proof fn lemma_stays_ahead(path: Seq<Pos>, decay: int, n: nat, end: int, sites: Seq<int>)
    requires
        0 <= decay < MAX_RUN,
        n <= end,
        good_sites(path, decay, end, sites),
    ensures
        planned(path, decay, n) is Ok,
        stays_ahead(path, decay, n as int, planned(path, decay, n)->Ok_0, sites),
    decreases n,
{
    if n > 0 {
        lemma_stays_ahead(path, decay, (n - 1) as nat, end, sites);
        lemma_planned(path, decay, (n - 1) as nat);
        let p = planned(path, decay, (n - 1) as nat)->Ok_0;
        let from = restored(decay, p.sites);
        assert(p.since == n - 1 - from);
        if p.since + 1 >= MAX_RUN {
            let next = lemma_next_site(path, decay, end, sites, from, 0);
            let m = p.sites.len() as int;
            let site = if is_site(path, n as int) {
                n as int
            } else {
                p.last->0
            };
            assert(from < site);
            if m > 0 {
                assert(sites[m - 1] <= p.sites[m - 1]);
            }
            assert(m < sites.len());
            assert(is_site(path, sites[m]));
            assert(sites[m] <= site);
            let after = planned(path, decay, n)->Ok_0;
            assert(after.sites == p.sites.push(site));
            assert forall|i: int| 0 <= i < after.sites.len() implies sites[i] <= #[trigger] after.sites[i] by {
                if i < m {
                    assert(after.sites[i] == p.sites[i]);
                }
            }
        }
    }
}

/// Repeaters are planned along every path that repeaters can keep alive, and the plan
/// is good and takes the fewest: no good list of sites is shorter.
pub proof fn lemma_fewest(path: Seq<Pos>, decay: int, sites: Seq<int>)
    requires
        0 <= decay < MAX_RUN,
        good_sites(path, decay, last_step(path) as int, sites),
    ensures
        repeaters_of(path, decay) matches Ok(plan) && good_sites(
            path,
            decay,
            last_step(path) as int,
            plan,
        ) && plan.len() <= sites.len(),
{
    lemma_stays_ahead(path, decay, last_step(path), last_step(path) as int, sites);
    lemma_planned(path, decay, last_step(path));
}

/// Repeaters can keep a path alive exactly if some are planned, and those are the fewest.
pub open spec fn plan_exact(path: Seq<Pos>, decay: int) -> bool {
    match repeaters_of(path, decay) {
        Ok(plan) => fewest_sites(path, decay, plan),
        Err(_) => forall|sites: Seq<int>| !#[trigger] good_sites(path, decay, last_step(path) as int, sites),
    }
}

proof fn lemma_plannable(path: Seq<Pos>, decay: int)
    requires
        0 <= decay < MAX_RUN,
    ensures
        plan_exact(path, decay),
{
    assert forall|sites: Seq<int>| #[trigger] good_sites(path, decay, last_step(path) as int, sites) implies (
    repeaters_of(path, decay) matches Ok(plan) && plan.len() <= sites.len()) by {
        lemma_fewest(path, decay, sites);
    }
    if repeaters_of(path, decay) is Ok {
        lemma_planned(path, decay, last_step(path));
    }
}

/// Is `i` a legal repeater site?
fn repeater_site(path: &[Pos], i: usize) -> (r: bool)
    requires
        i < path@.len(),
    ensures
        r == is_site(path@, i as int),
{
    if i == 0 || i >= path.len() - 1 {
        return false;
    }
    let prev: Pos = path[i - 1];
    let p: Pos = path[i];
    let next: Pos = path[i + 1];
    p.1 == prev.1 && p.1 == next.1 && next.0 as i64 - p.0 as i64 == p.0 as i64 - prev.0 as i64
        && next.2 as i64 - p.2 as i64 == p.2 as i64 - prev.2 as i64
}

fn no_flat(since: i64) -> (s: String)
    ensures
        s@ == no_flat_text(since as int),
{
    let mut s = String::from_str("route ran ");
    push_signed(&mut s, since);
    s.append(" blocks with no flat run to hold a repeater");
    s
}

/// Choose repeater positions along a path, or explain why it cannot be done.
///
/// Walks the route and, whenever the signal is about to decay past the
/// budget, backtracks to the *last* legal site seen. Greedy-latest keeps the
/// repeater count minimal while guaranteeing the budget is never exceeded.
pub fn plan_repeaters(path: &[Pos], initial_decay: i32) -> (r: Result<Vec<usize>, String>)
    ensures
        match r {
            Ok(sites) => repeaters_of(path@, initial_decay as int) == Ok::<Seq<int>, Seq<char>>(
                sites@.map_values(|i: usize| i as int),
            ),
            Err(m) => repeaters_of(path@, initial_decay as int) == Err::<Seq<int>, Seq<char>>(m@),
        },
        0 <= initial_decay < MAX_RUN ==> match r {
            Ok(sites) => fewest_sites(
                path@,
                initial_decay as int,
                sites@.map_values(|i: usize| i as int),
            ),
            Err(_) => forall|sites: Seq<int>|
                !#[trigger] good_sites(path@, initial_decay as int, last_step(path@) as int, sites),
        },
{
    let ghost ps = path@;
    let ghost decay = initial_decay as int;
    proof {
        if 0 <= decay < MAX_RUN {
            lemma_plannable(ps, decay);
        }
    }
    let mut sites: Vec<usize> = Vec::new();
    // The route may start partway along a driver's output spine, which has
    // already eaten into the signal budget.
    let mut since: i64 = initial_decay as i64;
    let mut last: Option<usize> = None;
    let n: usize = path.len();
    assert(sites@.map_values(|i: usize| i as int) =~= Seq::empty());
    if n == 0 {
        return Ok(sites);
    }
    for i in 1..n
        invariant
            ps == path@,
            decay == initial_decay,
            0 <= decay < MAX_RUN ==> plan_exact(ps, decay),
            n == ps.len(),
            -0x8000_0000 <= since < 0x8000_0000,
            match last {
                Some(s) => s < i,
                None => true,
            },
            planned(ps, decay, (i - 1) as nat) == Ok::<Plan, Seq<char>>(
                Plan {
                    sites: sites@.map_values(|i: usize| i as int),
                    since: since as int,
                    last: match last {
                        Some(s) => Some(s as int),
                        None => None,
                    },
                },
            ),
            i == 1 ==> since == decay,
            i > 1 ==> since < MAX_RUN,
    {
        since = since + 1;
        if repeater_site(path, i) {
            last = Some(i);
        }
        if since >= MAX_RUN as i64 {
            match last {
                None => {
                    proof {
                        lemma_planned_fails(ps, decay, i as nat, (n - 1) as nat);
                    }
                    return Err(no_flat(since));
                },
                Some(site) => {
                    if i - site >= MAX_RUN as usize {
                        proof {
                            lemma_planned_fails(ps, decay, i as nat, (n - 1) as nat);
                        }
                        return Err(String::from_str("repeater sites are too far apart"));
                    }
                    let ghost had = sites@;
                    sites.push(site);
                    assert(sites@.map_values(|i: usize| i as int) =~= had.map_values(|i: usize| i as int).push(site as int));
                    since = (i - site) as i64;
                    last = None;
                },
            }
        }
    }
    Ok(sites)
}

proof fn lemma_planned_fails(path: Seq<Pos>, decay: int, n: nat, m: nat)
    requires
        planned(path, decay, n) is Err,
        n <= m,
    ensures
        planned(path, decay, m) == planned(path, decay, n),
    decreases m,
{
    if n < m {
        lemma_planned_fails(path, decay, n, (m - 1) as nat);
    }
}

} // verus!
