//! Relays: a dust-repeater-dust segment that a long or deep connection lands on.
use crate::deep::{lemma_built_spans, puts_within, spans, within};
use crate::route::{
    abs, board_ok, can_route, claimed_by, free, keeps_others, lemma_claim_still_apart,
    lemma_route_keeps_owners, lemma_route_keeps_routed, route_ends,
    lemma_route_leaves_claims, lemma_routed_span, lemma_same_still_apart, lemma_still_apart_trans,
    net_routed, quotient, relay_clear, relay_in, relay_out, relay_room, routed_apart, still_apart,
    wanted_of, Board, NetId, Router, Tuning, Wanted, Works,
};
use crate::steps::{built, put, Step};
use crate::tech::{dust, moved, repeater};
use crate::text::{decimal, push_decimal};
use crate::wiring::running;
use crate::world::{block_at, opaque_block, pos_label, push_pos, Block, Dir, Grid, Material, Pos};
use vstd::prelude::*;
use vstd::string::*;

verus! {

/// How much more horizontal room than vertical drop a single hop must have.
///
/// Dust descends one block of Y per block travelled, so the bare requirement is
/// one horizontal block per level. The real requirement includes the flats: one per
/// level, plus one every thirteen blocks to refresh the signal, plus room to approach
/// the target from a sensible direction.
pub const STEEP_SLACK: i32 = 2;

/// Largest vertical drop a single route may attempt.
///
/// Dust falls one block of Y per block of horizontal travel, and it cannot carry
/// a repeater on the way down because a repeater cannot sit on a slope. Anything
/// deeper gets broken into relay stages.
pub const MAX_DROP: i32 = 12;

/// How far one routed hop may reach horizontally before the connection is
/// broken over another relay.
pub const MAX_HOP: i32 = 48;

/// How many Z bands relays are spread over before wrapping.
pub const RELAY_BANDS: i32 = 6;

/// A site with this many open ways is taken at once.
pub const COMFY: usize = 6;

// --- stamping --------------------------------------------------------------------------

pub open spec fn no_footing_text(pos: Pos, sub: Pos) -> Seq<char> {
    "relay at "@ + pos_label(pos) + " has no solid footing at "@ + pos_label(sub)
}

/// A cell of a relay at `pos` gets something solid to stand on.
pub open spec fn footed(c: (Map<Pos, Block>, Option<Seq<char>>), pos: Pos, p: Pos) -> (
    Map<Pos, Block>,
    Option<Seq<char>>,
) {
    let sub = moved(p, 0, -1, 0);
    if c.1 is Some {
        c
    } else if free(c.0, sub) {
        (c.0.insert(sub, Block::Solid(Material::Clock)), None)
    } else if !opaque_block(block_at(c.0, sub)) {
        (c.0, Some(no_footing_text(pos, sub)))
    } else {
        c
    }
}

/// The wire of a relay.
pub open spec fn relay_steps(pos: Pos) -> Seq<Step> {
    seq![
        Step::Put(relay_in(pos), dust()),
        Step::Put(pos, repeater(Dir::North)),
        Step::Put(relay_out(pos), dust()),
    ]
}

/// A relay at `pos`: three cells along Z, each with a footing.
pub open spec fn relay_stamped(cells: Map<Pos, Block>, pos: Pos) -> (Map<Pos, Block>, Option<Seq<char>>) {
    let feet = footed(footed(footed((cells, None), pos, relay_in(pos)), pos, pos), pos, relay_out(pos));
    if feet.1 is Some {
        feet
    } else {
        built(feet.0, relay_steps(pos))
    }
}

/// The works with a relay of `net` at `site`.
pub open spec fn relay_set(w: Works, net: NetId, site: Pos) -> Works {
    let s = relay_stamped(w.cells, site);
    if s.1 is Some {
        Works { cells: s.0, stop: s.1, ..w }
    } else {
        let b = claimed_by(claimed_by(w.board, relay_in(site), net), relay_out(site), net);
        Works { board: Board { blocked: b.blocked.insert(site), ..b }, cells: s.0, stop: None }
    }
}

fn no_footing(pos: Pos, sub: Pos) -> (s: String)
    ensures
        s@ == no_footing_text(pos, sub),
{
    let mut s = String::from_str("relay at ");
    push_pos(&mut s, pos);
    s.append(" has no solid footing at ");
    push_pos(&mut s, sub);
    s
}

fn foot(g: &mut Grid, pos: Pos, p: Pos) -> (r: Result<(), String>)
    requires
        within(p, 0x0aff_fff0),
        spans(old(g)@, 0x0b00_0000),
    ensures
        match r {
            Ok(_) => footed((old(g)@, None), pos, p) == (final(g)@, None::<Seq<char>>) && spans(
                final(g)@,
                0x0b00_0000,
            ),
            Err(m) => footed((old(g)@, None), pos, p).1 == Some(m@),
        },
{
    let sub: Pos = (p.0, p.1 - 1, p.2);
    if g.is_free(sub) {
        g.force(sub, Block::Solid(Material::Clock));
        Ok(())
    } else if !g.get(sub).is_opaque() {
        Err(no_footing(pos, sub))
    } else {
        Ok(())
    }
}

/// Stamp a relay at `pos`: signal enters at its north end and leaves, restored, at its
/// south end.
pub fn stamp_relay(g: &mut Grid, pos: Pos) -> (r: Result<(Pos, Pos), String>)
    requires
        within(pos, 0x0aff_f000),
        spans(old(g)@, 0x0b00_0000),
    ensures
        match r {
            Ok(ends) => relay_stamped(old(g)@, pos) == (final(g)@, None::<Seq<char>>) && ends == (
                relay_in(pos),
                relay_out(pos),
            ) && spans(final(g)@, 0x0b00_0000),
            Err(m) => relay_stamped(old(g)@, pos).1 == Some(m@),
        },
{
    let inp: Pos = (pos.0, pos.1, pos.2 - 1);
    let out: Pos = (pos.0, pos.1, pos.2 + 1);
    foot(g, pos, inp)?;
    foot(g, pos, pos)?;
    foot(g, pos, out)?;
    let ghost start = g@;
    let ghost plan = relay_steps(pos);
    proof {
        assert(plan.take(0) =~= Seq::empty());
        assert(plan.take(3) =~= plan);
        assert(puts_within(plan, 0x0b00_0000));
        lemma_built_spans(start, plan, 0x0b00_0000);
    }
    put(g, inp, Block::Dust { power: 0 }, Ghost(start), Ghost(plan), Ghost(0))?;
    put(
        g,
        pos,
        Block::Repeater { facing: Dir::North, delay: 1, powered: false },
        Ghost(start),
        Ghost(plan),
        Ghost(1),
    )?;
    put(g, out, Block::Dust { power: 0 }, Ghost(start), Ghost(plan), Ghost(2))?;
    Ok((inp, out))
}

/// Stamp a relay and make it the net's own.
pub fn set_relay(g: &mut Grid, r: &mut Router, net: NetId, site: Pos, Ghost(w): Ghost<Works>) -> (res: Result<
    (Pos, Pos),
    String,
>)
    requires
        running(w, *old(r), *old(g)),
        within(site, 0x0aff_f000),
    ensures
        ({
            let after = relay_set(w, net, site);
            match res {
                Ok(ends) => running(after, *final(r), *final(g)) && ends == (relay_in(site), relay_out(site)),
                Err(m) => after.stop == Some(m@),
            }
        }),
        final(r).max_expansions == old(r).max_expansions,
        final(r).tuning == old(r).tuning,
{
    let (rin, rout) = stamp_relay(g, site)?;
    r.claim(rin, net);
    r.claim(rout, net);
    r.block(site);
    Ok((rin, rout))
}

// --- finding a site ----------------------------------------------------------------------

/// How far a site may be moved along X, in the order of preference.
pub open spec fn sideways() -> Seq<int> {
    seq![0, 2, -2, 4, -4, 6, -6, 9, -9, 12, -12]
}

/// How far a site may be moved along Y, in the order of preference.
pub open spec fn upwards() -> Seq<int> {
    seq![0, 2, -2, 3, -3]
}

/// A number of zero, two, minus two, four, minus four, and so on.
pub open spec fn swinging(m: int) -> int {
    if m == 0 {
        0
    } else if m % 2 == 1 {
        m + 1
    } else {
        -m
    }
}

/// The `k`th place to try near `near`. Along Z the places march away from it, or
/// swing about it.
pub open spec fn site_near(near: Pos, swing: bool, k: int) -> Pos {
    let dz = k / 55;
    moved(
        near,
        sideways()[k % 11],
        upwards()[(k % 55) / 11],
        if swing {
            swinging(dz)
        } else {
            dz
        },
    )
}

/// The first place, from the `k`th on, that is clear.
pub open spec fn first_site(b: Board, cells: Map<Pos, Block>, near: Pos, net: NetId, k: nat) -> Option<Pos>
    decreases 2640 - k,
{
    if k >= 2640 {
        None
    } else if relay_clear(b, cells, site_near(near, false, k as int), net) {
        Some(site_near(near, false, k as int))
    } else {
        first_site(b, cells, near, net, k + 1)
    }
}

/// The roomiest place, from the `k`th on, after `seen` clear ones of which `best` is
/// the roomiest. A comfortable one is taken at once, and no more than 24 are looked
/// at.
pub open spec fn best_site(
    b: Board,
    cells: Map<Pos, Block>,
    near: Pos,
    net: NetId,
    k: nat,
    best: Option<(nat, Pos)>,
    seen: nat,
) -> Option<(nat, Pos)>
    decreases 3465 - k,
{
    let c = site_near(near, true, k as int);
    if k >= 3465 {
        best
    } else if !relay_clear(b, cells, c, net) {
        best_site(b, cells, near, net, k + 1, best, seen)
    } else {
        let room = relay_room(b, cells, c, net);
        let better = if best is None || room > (best->0).0 {
            Some((room, c))
        } else {
            best
        };
        if room >= COMFY {
            Some((room, c))
        } else if seen + 1 >= 24 {
            better
        } else {
            best_site(b, cells, near, net, k + 1, better, seen + 1)
        }
    }
}

/// The place for a relay of `net` near `near`.
#[verifier::opaque]
pub open spec fn roomiest(b: Board, cells: Map<Pos, Block>, near: Pos, net: NetId) -> Option<Pos> {
    match best_site(b, cells, near, net, 0, None, 0) {
        Some(best) => Some(best.1),
        None => None,
    }
}

fn sideways_by(i: u32) -> (d: i32)
    requires
        i < 11,
    ensures
        d == sideways()[i as int],
        -12 <= d <= 12,
{
    match i {
        0 => 0,
        1 => 2,
        2 => -2,
        3 => 4,
        4 => -4,
        5 => 6,
        6 => -6,
        7 => 9,
        8 => -9,
        9 => 12,
        _ => -12,
    }
}

fn upwards_by(i: u32) -> (d: i32)
    requires
        i < 5,
    ensures
        d == upwards()[i as int],
        -3 <= d <= 3,
{
    match i {
        0 => 0,
        1 => 2,
        2 => -2,
        3 => 3,
        _ => -3,
    }
}

fn place_near(near: Pos, swing: bool, k: u32) -> (p: Pos)
    requires
        within(near, 0x0aff_e000),
        k < 3465,
    ensures
        p == site_near(near, swing, k as int),
        within(p, 0x0aff_f000),
{
    let m: i32 = (k / 55) as i32;
    let dz: i32 = if swing {
        if m == 0 {
            0
        } else if m % 2 == 1 {
            m + 1
        } else {
            -m
        }
    } else {
        m
    };
    (near.0 + sideways_by(k % 11), near.1 + upwards_by((k % 55) / 11), near.2 + dz)
}

/// Find the first clear place.
pub fn find_site(r: &Router, g: &Grid, near: Pos, net: NetId) -> (p: Option<Pos>)
    requires
        board_ok(r@),
        within(near, 0x0aff_e000),
    ensures
        p == first_site(r@, g@, near, net, 0),
        match p {
            Some(c) => within(c, 0x0aff_f000),
            None => true,
        },
{
    let mut k: u32 = 0;
    while k < 2640
        invariant
            board_ok(r@),
            within(near, 0x0aff_e000),
            k <= 2640,
            first_site(r@, g@, near, net, k as nat) == first_site(r@, g@, near, net, 0),
        decreases 2640 - k,
    {
        let c = place_near(near, false, k);
        if r.relay_site_clear(g, c, net) {
            return Some(c);
        }
        k = k + 1;
    }
    None
}

/// Find the roomiest place.
fn find_best_site(r: &Router, g: &Grid, near: Pos, net: NetId) -> (p: Option<Pos>)
    requires
        board_ok(r@),
        within(near, 0x0aff_e000),
    ensures
        p == roomiest(r@, g@, near, net),
        p matches Some(c) ==> within(c, 0x0aff_f000),
{
    proof {
        reveal(roomiest);
    }
    let mut k: u32 = 0;
    let mut room: usize = 0;
    let mut best: Option<Pos> = None;
    let mut seen: u32 = 0;
    let ghost goal = best_site(r@, g@, near, net, 0, None, 0);
    while k < 3465
        invariant
            board_ok(r@),
            within(near, 0x0aff_e000),
            k <= 3465,
            seen < 24,
            roomiest(r@, g@, near, net) == match goal {
                Some(best) => Some(best.1),
                None => None,
            },
            goal == best_site(
                r@,
                g@,
                near,
                net,
                k as nat,
                match best {
                    Some(c) => Some((room as nat, c)),
                    None => None,
                },
                seen as nat,
            ),
            best matches Some(c) ==> within(c, 0x0aff_f000),
        decreases 3465 - k,
    {
        let c = place_near(near, true, k);
        if let Some(n) = r.relay_site_room(g, c, net) {
            if n >= COMFY {
                return Some(c);
            }
            let better = match best {
                Some(_) => n > room,
                None => true,
            };
            if better {
                best = Some(c);
                room = n;
            }
            seen = seen + 1;
            if seen >= 24 {
                return best;
            }
        }
        k = k + 1;
    }
    best
}

// --- hops --------------------------------------------------------------------------------

/// What the hops of a connection share.
pub struct Line {
    pub tuning: Tuning,
    pub max_expansions: usize,
    pub net: NetId,
    pub bounds: (Pos, Pos),
    pub material: Material,
}

/// A route of a line.
pub open spec fn asked(l: Line, from: Seq<Pos>, to: Pos, carry: i32) -> Wanted {
    Wanted {
        tuning: l.tuning,
        max_expansions: l.max_expansions,
        net: l.net,
        sources: from,
        to,
        bounds: l.bounds,
        material: l.material,
        decay: carry,
    }
}

/// A connection so far: the works, where the next hop leaves from with what decay, and
/// the route that could not be found.
pub struct Chain {
    pub works: Works,
    pub from: Seq<Pos>,
    pub carry: i32,
    pub stalled: Option<Seq<char>>,
}

pub open spec fn ended(c: Chain) -> bool {
    c.works.stop is Some || c.stalled is Some
}

/// One hop further, by a relay at `site`.
#[verifier::opaque]
pub open spec fn hopped(l: Line, c: Chain, site: Pos, prefix: Seq<char>) -> Chain {
    let set = relay_set(c.works, l.net, site);
    if set.stop is Some {
        Chain { works: set, ..c }
    } else {
        let r = net_routed(asked(l, c.from, relay_in(site), c.carry), set.board, set.cells);
        match r.stop {
            Some(e) => Chain { works: Works { stop: None, ..r }, stalled: Some(prefix + e), ..c },
            None => Chain { works: r, from: seq![relay_out(site)], carry: 0, stalled: None },
        }
    }
}

/// The line of a router.
pub open spec fn line_of(r: Router, net: NetId, bounds: (Pos, Pos), material: Material) -> Line {
    Line { tuning: r.tuning, max_expansions: r.max_expansions, net, bounds, material }
}

/// A line whose routes can be asked for.
pub open spec fn line_ok(l: Line) -> bool {
    &&& within(l.bounds.0, 0x0aff_ffff)
    &&& within(l.bounds.1, 0x0aff_ffff)
    &&& l.tuning.attempts <= 0x10_0000
    &&& l.tuning.slope_div > 0
    &&& l.max_expansions < 0xffff_ffff_ffff_ffff
}

/// Sources that a route can leave from.
pub open spec fn sources_ok(s: Seq<Pos>) -> bool {
    &&& 0 < s.len() <= 0x0a00_0000
    &&& forall|i: int| 0 <= i < s.len() ==> within(#[trigger] s[i], 0x0b00_0000)
}

/// The router, the grid and the ends are as the chain says.
pub open spec fn on_the_way(c: Chain, r: Router, g: Grid, from: Seq<Pos>, carry: i32) -> bool {
    &&& running(c.works, r, g)
    &&& c.from == from
    &&& c.carry == carry
    &&& c.stalled is None
    &&& sources_ok(from)
}

/// Route within a line.
pub fn route_on(
    g: &mut Grid,
    r: &mut Router,
    net: NetId,
    from: &Vec<Pos>,
    to: Pos,
    bounds: (Pos, Pos),
    material: Material,
    carry: i32,
    Ghost(w): Ghost<Works>,
) -> (res: Result<(), String>)
    requires
        running(w, *old(r), *old(g)),
        line_ok(line_of(*old(r), net, bounds, material)),
        sources_ok(from@),
        within(to, 0x0b00_0000),
    ensures
        ({
            let after = net_routed(
                asked(line_of(*old(r), net, bounds, material), from@, to, carry),
                w.board,
                w.cells,
            );
            match res {
                Ok(_) => running(after, *final(r), *final(g)),
                Err(m) => after.stop == Some(m@) && running(
                    (Works { stop: None, ..after }),
                    *final(r),
                    *final(g),
                ),
            }
        }),
        final(r)@.claimed == w.board.claimed,
        keeps_others(w.board, final(r)@, net, route_ends(from@, to)),
        forall|pads: Set<Pos>| #[trigger]
            routed_apart(w.board, pads) && (pads.contains(to) || w.board.claimed.contains(to)) ==> routed_apart(
                final(r)@,
                pads,
            ),
        final(r).max_expansions == old(r).max_expansions,
        final(r).tuning == old(r).tuning,
{
    proof {
        let want = asked(line_of(*r, net, bounds, material), from@, to, carry);
        assert(want == wanted_of(*r, net, from@, to, bounds, material, carry));
        assert(can_route(want));
        lemma_routed_span(want, w.board, w.cells, 0x0b00_0000);
        lemma_route_leaves_claims(want, w.board, w.cells);
        lemma_route_keeps_owners(want, w.board, w.cells);
        let after = net_routed(want, w.board, w.cells).board;
        assert forall|pads: Set<Pos>| #[trigger]
            routed_apart(w.board, pads) && (pads.contains(to) || w.board.claimed.contains(to)) implies routed_apart(
            after,
            pads,
        ) by {
            lemma_route_keeps_routed(want, w.board, w.cells, pads);
        }
    }
    r.route(g, net, from.as_slice(), to, bounds, material, carry)
}

/// A relay joins no routed wires: its ends are placed by hand.
proof fn lemma_relay_still_apart(w: Works, net: NetId, site: Pos)
    ensures
        still_apart(w.board, relay_set(w, net, site).board),
        relay_set(w, net, site).stop is None ==> relay_set(w, net, site).board.claimed.contains(
            relay_in(site),
        ),
{
    let b1 = claimed_by(w.board, relay_in(site), net);
    let b2 = claimed_by(b1, relay_out(site), net);
    lemma_claim_still_apart(w.board, relay_in(site), net);
    lemma_claim_still_apart(b1, relay_out(site), net);
    lemma_still_apart_trans(w.board, b1, b2);
    let after = relay_set(w, net, site).board;
    if relay_stamped(w.cells, site).1 is None {
        lemma_same_still_apart(b2, after);
        lemma_still_apart_trans(w.board, b2, after);
    }
}

/// The wire at `p` is the net's.
pub open spec fn owned(b: Board, p: Pos, net: NetId) -> bool {
    b.owner.contains_key(p) && b.owner[p] == net
}

/// A relay stands where no wire was, so it takes none; what a route to it keeps, the hop
/// keeps.
proof fn lemma_relay_owners(w: Works, net: NetId, site: Pos, from: Seq<Pos>)
    requires
        relay_clear(w.board, w.cells, site, net),
        relay_set(w, net, site).stop is None,
    ensures
        owned(relay_set(w, net, site).board, relay_out(site), net),
        forall|after: Board| #[trigger]
            keeps_others(relay_set(w, net, site).board, after, net, route_ends(from, relay_in(site)))
                ==> keeps_others(w.board, after, net, from.to_set()) && owned(after, relay_out(site), net),
{
    let set = relay_set(w, net, site).board;
    assert forall|after: Board| #[trigger]
        keeps_others(set, after, net, route_ends(from, relay_in(site))) implies keeps_others(
        w.board,
        after,
        net,
        from.to_set(),
    ) && owned(after, relay_out(site), net) by {
        assert(set.owner.contains_key(relay_out(site)));
        assert forall|p: Pos| #[trigger]
            w.board.owner.contains_key(p) && (w.board.owner[p] == net || !from.to_set().contains(p)) implies after.owner.contains_key(
            p,
        ) && after.owner[p] == w.board.owner[p] by {
            assert(p != relay_in(site) && p != relay_out(site));
            assert(set.owner.contains_key(p));
        }
    }
}

/// A site that is found is clear.
proof fn lemma_best_clear(b: Board, cells: Map<Pos, Block>, near: Pos, net: NetId, k: nat, best: Option<(nat, Pos)>, seen: nat)
    requires
        best matches Some(x) ==> relay_clear(b, cells, x.1, net),
    ensures
        best_site(b, cells, near, net, k, best, seen) matches Some(x) ==> relay_clear(b, cells, x.1, net),
    decreases 3465 - k,
{
    let c = site_near(near, true, k as int);
    if k < 3465 {
        if !relay_clear(b, cells, c, net) {
            lemma_best_clear(b, cells, near, net, k + 1, best, seen);
        } else {
            let room = relay_room(b, cells, c, net);
            let better = if best is None || room > (best->0).0 {
                Some((room, c))
            } else {
                best
            };
            if room < COMFY && seen + 1 < 24 {
                lemma_best_clear(b, cells, near, net, k + 1, better, seen + 1);
            }
        }
    }
}

/// How a hop went.
pub enum Hop {
    /// It arrived: the next one leaves from here.
    Arrived(Pos),
    /// There was no way.
    Stalled(String),
}

/// Take one hop.
pub fn hop(
    g: &mut Grid,
    r: &mut Router,
    net: NetId,
    from: &Vec<Pos>,
    site: Pos,
    bounds: (Pos, Pos),
    material: Material,
    carry: i32,
    prefix: String,
    Ghost(c): Ghost<Chain>,
) -> (res: Result<Hop, String>)
    requires
        on_the_way(c, *old(r), *old(g), from@, carry),
        line_ok(line_of(*old(r), net, bounds, material)),
        within(site, 0x0aff_f000),
    ensures
        ({
            let after = hopped(line_of(*old(r), net, bounds, material), c, site, prefix@);
            match res {
                Ok(Hop::Arrived(p)) => on_the_way(after, *final(r), *final(g), seq![p], 0) && still_apart(
                    c.works.board,
                    after.works.board,
                ) && (relay_clear(c.works.board, c.works.cells, site, net) ==> keeps_others(
                    c.works.board,
                    after.works.board,
                    net,
                    from@.to_set(),
                ) && owned(after.works.board, p, net)),
                Ok(Hop::Stalled(m)) => after.stalled == Some(m@) && running(
                    after.works,
                    *final(r),
                    *final(g),
                ),
                Err(m) => after.works.stop == Some(m@),
            }
        }),
        final(r).max_expansions == old(r).max_expansions,
        final(r).tuning == old(r).tuning,
{
    proof {
        reveal(hopped);
    }
    let (rin, rout) = set_relay(g, r, net, site, Ghost(c.works))?;
    let ghost set = relay_set(c.works, net, site);
    proof {
        lemma_relay_still_apart(c.works, net, site);
        if relay_clear(c.works.board, c.works.cells, site, net) {
            lemma_relay_owners(c.works, net, site, from@);
        }
    }
    match route_on(g, r, net, from, rin, bounds, material, carry, Ghost(set)) {
        Ok(_) => Ok(Hop::Arrived(rout)),
        Err(e) => {
            let mut m = prefix;
            m.append(e.as_str());
            Ok(Hop::Stalled(m))
        },
    }
}

/// A point on the way from `a` to `b`.
pub open spec fn part_way(a: int, b: int, stage: int, stages: int) -> int {
    a + quotient((b - a) * stage, stages)
}

/// A point on the way is not beyond the ends.
pub proof fn lemma_part_way(a: int, b: int, stage: int, stages: int)
    requires
        0 <= stage <= stages,
        0 < stages,
    ensures
        a <= b ==> a <= part_way(a, b, stage, stages) <= b,
        a >= b ==> b <= part_way(a, b, stage, stages) <= a,
{
    let d = abs(b - a);
    assert(0 <= d * stage <= d * stages) by (nonlinear_arith)
        requires
            d >= 0,
            0 <= stage <= stages,
    ;
    assert(0 <= (d * stage) / stages <= d) by (nonlinear_arith)
        requires
            0 <= d * stage <= d * stages,
            stages > 0,
    ;
    assert((-d) * stage == -(d * stage)) by (nonlinear_arith);
    if b < a {
        assert((b - a) * stage == -(d * stage));
    }
}

pub fn way(a: i32, b: i32, stage: i32, stages: i32) -> (r: i32)
    requires
        0 <= stage <= stages,
        0 < stages <= 0x0400_0000,
        -0x1000_0000 <= a <= 0x1000_0000,
        -0x1000_0000 <= b <= 0x1000_0000,
    ensures
        r == part_way(a as int, b as int, stage as int, stages as int),
        a <= b ==> a <= r <= b,
        a >= b ==> b <= r <= a,
{
    proof {
        lemma_part_way(a as int, b as int, stage as int, stages as int);
        let d = b - a;
        assert(-0x2000_0000 * 0x0400_0000 <= d * stage <= 0x2000_0000 * 0x0400_0000) by (nonlinear_arith)
            requires
                -0x2000_0000 <= d <= 0x2000_0000,
                0 <= stage <= 0x0400_0000,
        ;
    }
    let m: i64 = (b as i64 - a as i64) * stage as i64;
    let q: i64 = if m < 0 {
        -((-m) / stages as i64)
    } else {
        m / stages as i64
    };
    (a as i64 + q) as i32
}

pub fn span_of(a: i32, b: i32) -> (r: i32)
    requires
        -0x1000_0000 <= a <= 0x1000_0000,
        -0x1000_0000 <= b <= 0x1000_0000,
    ensures
        r == abs(b - a),
{
    if a < b {
        b - a
    } else {
        a - b
    }
}

// --- staged routes -------------------------------------------------------------------------

/// The nearest of the first `n` sources, the first of them where several are as near.
pub open spec fn anchor_of(sources: Seq<Pos>, target: Pos, n: nat) -> Pos
    decreases n,
{
    if n <= 1 {
        sources[0]
    } else {
        let best = anchor_of(sources, target, (n - 1) as nat);
        if crate::route::distance(sources[n - 1], target) < crate::route::distance(best, target) {
            sources[n - 1]
        } else {
            best
        }
    }
}

/// How many hops a run from `a` to `b` takes.
pub open spec fn hops_of(a: Pos, b: Pos) -> int {
    let rise = abs(b.1 - a.1);
    let span = abs(b.0 - a.0) + abs(b.2 - a.2);
    let v = (rise + MAX_DROP - 1) / MAX_DROP as int;
    let h = (span + MAX_HOP - 1) / MAX_HOP as int;
    let steep = if rise * STEEP_SLACK > span {
        2
    } else {
        1
    };
    crate::route::greater(crate::route::greater(v, h), steep)
}

/// About where the relay of a stage goes.
#[verifier::opaque]
pub open spec fn stage_at(a: Pos, b: Pos, band: int, stage: int) -> Pos {
    let n = hops_of(a, b);
    (
        part_way(a.0 as int, b.0 as int, stage, n) as i32,
        part_way(a.1 as int, b.1 as int, stage, n) as i32,
        (part_way(a.2 as int, b.2 as int, stage, n) + band * 3) as i32,
    )
}

pub open spec fn no_site_text(near: Pos, net: NetId) -> Seq<char> {
    "no clear relay site near "@ + pos_label(near) + " for net "@ + decimal(net as nat)
}

pub open spec fn stage_text(stage: int, stages: int) -> Seq<char> {
    "stage "@ + decimal(stage as nat) + " of "@ + decimal(stages as nat) + ": "@
}

/// The first `n` hops from the nearest source to the target.
pub open spec fn staged(
    l: Line,
    w: Works,
    sources: Seq<Pos>,
    target: Pos,
    decay: i32,
    band: int,
    n: nat,
) -> Chain
    decreases n,
{
    if n == 0 {
        Chain { works: w, from: sources, carry: decay, stalled: None }
    } else {
        let c = staged(l, w, sources, target, decay, band, (n - 1) as nat);
        let anchor = anchor_of(sources, target, sources.len());
        if ended(c) {
            c
        } else {
            let near = stage_at(anchor, target, band, n as int);
            match roomiest(c.works.board, c.works.cells, near, l.net) {
                None => Chain {
                    works: Works { stop: Some(no_site_text(near, l.net)), ..c.works },
                    ..c
                },
                Some(site) => hopped(l, c, site, stage_text(n as int, hops_of(anchor, target))),
            }
        }
    }
}

/// A connection that is broken over relays wherever it is long, deep or steep.
#[verifier::opaque]
pub open spec fn stage_routed(l: Line, w: Works, sources: Seq<Pos>, target: Pos, decay: i32, band: int) -> Works {
    let anchor = anchor_of(sources, target, sources.len());
    landed(l, staged(l, w, sources, target, decay, band, (hops_of(anchor, target) - 1) as nat), target)
}

/// The last hop of a connection.
pub open spec fn landed(l: Line, c: Chain, target: Pos) -> Works {
    if c.works.stop is Some {
        c.works
    } else if c.stalled is Some {
        Works { stop: c.stalled, ..c.works }
    } else {
        net_routed(asked(l, c.from, target, c.carry), c.works.board, c.works.cells)
    }
}

proof fn lemma_staged_ends(
    l: Line,
    w: Works,
    sources: Seq<Pos>,
    target: Pos,
    decay: i32,
    band: int,
    n: nat,
    m: nat,
)
    requires
        ended(staged(l, w, sources, target, decay, band, n)),
        n <= m,
    ensures
        staged(l, w, sources, target, decay, band, m) == staged(l, w, sources, target, decay, band, n),
    decreases m,
{
    if n < m {
        lemma_staged_ends(l, w, sources, target, decay, band, n, (m - 1) as nat);
    }
}

fn no_site(near: Pos, net: NetId) -> (s: String)
    ensures
        s@ == no_site_text(near, net),
{
    let mut s = String::from_str("no clear relay site near ");
    push_pos(&mut s, near);
    s.append(" for net ");
    push_decimal(&mut s, net as u64);
    s
}

fn stage_label(stage: i32, stages: i32) -> (s: String)
    requires
        0 <= stage,
        0 <= stages,
    ensures
        s@ == stage_text(stage as int, stages as int),
{
    let mut s = String::from_str("stage ");
    push_decimal(&mut s, stage as u64);
    s.append(" of ");
    push_decimal(&mut s, stages as u64);
    s.append(": ");
    s
}

fn find_anchor(sources: &Vec<Pos>, target: Pos) -> (a: Pos)
    requires
        sources_ok(sources@),
        within(target, 0x0b00_0000),
    ensures
        a == anchor_of(sources@, target, sources@.len()),
        within(a, 0x0b00_0000),
{
    let mut best: Pos = sources[0];
    let mut i: usize = 1;
    assert(within(sources@[0], 0x0b00_0000));
    while i < sources.len()
        invariant
            sources_ok(sources@),
            within(target, 0x0b00_0000),
            1 <= i <= sources@.len(),
            best == anchor_of(sources@, target, i as nat),
            within(best, 0x0b00_0000),
        decreases sources@.len() - i,
    {
        let s: Pos = sources[i];
        assert(within(sources@[i as int], 0x0b00_0000));
        let d: i32 = span_of(s.0, target.0) + span_of(s.1, target.1) + span_of(s.2, target.2);
        let e: i32 = span_of(best.0, target.0) + span_of(best.1, target.1) + span_of(best.2, target.2);
        if d < e {
            best = s;
        }
        i = i + 1;
    }
    best
}

fn count_hops(a: Pos, b: Pos) -> (n: i32)
    requires
        within(a, 0x0b00_0000),
        within(b, 0x0b00_0000),
    ensures
        n == hops_of(a, b),
        1 <= n <= 0x0400_0000,
{
    let rise: i32 = span_of(a.1, b.1);
    let span: i32 = span_of(a.0, b.0) + span_of(a.2, b.2);
    let v: i32 = (rise + MAX_DROP - 1) / MAX_DROP;
    let h: i32 = (span + MAX_HOP - 1) / MAX_HOP;
    let steep: i32 = if rise * STEEP_SLACK > span {
        2
    } else {
        1
    };
    let n: i32 = if v < h {
        h
    } else {
        v
    };
    if n < steep {
        steep
    } else {
        n
    }
}

fn stage_place(a: Pos, b: Pos, band: i32, stage: i32, stages: i32) -> (p: Pos)
    requires
        within(a, 0x0a00_0000),
        within(b, 0x0a00_0000),
        stages == hops_of(a, b),
        0 <= stage <= stages,
        0 < stages <= 0x0400_0000,
        0 <= band < 6,
    ensures
        p == stage_at(a, b, band as int, stage as int),
        within(p, 0x0aff_e000),
{
    proof {
        reveal(stage_at);
    }
    (
        way(a.0, b.0, stage, stages),
        way(a.1, b.1, stage, stages),
        way(a.2, b.2, stage, stages) + band * 3,
    )
}

/// Route one connection, breaking it over relays wherever it is long, deep or steep.
///
/// Everything is measured from the source nearest the target rather than from the
/// first, because a trunk is as long as the bank and its taps are spread along it.
pub fn staged_route(
    g: &mut Grid,
    r: &mut Router,
    net: NetId,
    sources: &Vec<Pos>,
    target: Pos,
    bounds: (Pos, Pos),
    material: Material,
    decay: i32,
    band: i32,
    Ghost(w): Ghost<Works>,
) -> (res: Result<(), String>)
    requires
        running(w, *old(r), *old(g)),
        line_ok(line_of(*old(r), net, bounds, material)),
        sources_ok(sources@),
        forall|i: int| 0 <= i < sources@.len() ==> within(#[trigger] sources@[i], 0x0a00_0000),
        within(target, 0x0a00_0000),
        0 <= band < 6,
        w.board.claimed.contains(target),
    ensures
        ({
            let after = stage_routed(
                line_of(*old(r), net, bounds, material),
                w,
                sources@,
                target,
                decay,
                band as int,
            );
            match res {
                Ok(_) => running(after, *final(r), *final(g)) && still_apart(w.board, after.board)
                    && keeps_others(w.board, after.board, net, route_ends(sources@, target)),
                Err(m) => after.stop == Some(m@),
            }
        }),
        final(r).max_expansions == old(r).max_expansions,
        final(r).tuning == old(r).tuning,
{
    proof {
        reveal(stage_routed);
    }
    let ghost l = line_of(*r, net, bounds, material);
    let anchor = find_anchor(sources, target);
    let stages: i32 = count_hops(anchor, target);
    let mut from: Vec<Pos> = Vec::new();
    for i in 0..sources.len()
        invariant
            from@ == sources@.take(i as int),
    {
        from.push(sources[i]);
        assert(sources@.take(i + 1) =~= sources@.take(i as int).push(sources@[i as int]));
    }
    assert(sources@.take(sources@.len() as int) =~= sources@);
    assert(within(anchor, 0x0a00_0000)) by {
        lemma_anchor(sources@, target, sources@.len());
    }
    let mut carry: i32 = decay;
    let mut stage: i32 = 1;
    while stage < stages
        invariant
            l == line_of(*r, net, bounds, material),
            line_ok(l),
            0 <= band < 6,
            anchor == anchor_of(sources@, target, sources@.len()),
            within(anchor, 0x0a00_0000),
            within(target, 0x0a00_0000),
            stages == hops_of(anchor, target),
            1 <= stage <= stages <= 0x0400_0000,
            line_of(*old(r), net, bounds, material) == l,
            stage_routed(l, w, sources@, target, decay, band as int) == landed(
                l,
                staged(l, w, sources@, target, decay, band as int, (stages - 1) as nat),
                target,
            ),
            on_the_way(staged(l, w, sources@, target, decay, band as int, (stage - 1) as nat), *r, *g, from@, carry),
            still_apart(
                w.board,
                staged(l, w, sources@, target, decay, band as int, (stage - 1) as nat).works.board,
            ),
            hops_keep(
                w.board,
                staged(l, w, sources@, target, decay, band as int, (stage - 1) as nat).works.board,
                net,
                sources@,
                from@,
            ),
            r.max_expansions == old(r).max_expansions,
            r.tuning == old(r).tuning,
        ensures
            on_the_way(staged(l, w, sources@, target, decay, band as int, (stages - 1) as nat), *r, *g, from@, carry),
            still_apart(
                w.board,
                staged(l, w, sources@, target, decay, band as int, (stages - 1) as nat).works.board,
            ),
            hops_keep(
                w.board,
                staged(l, w, sources@, target, decay, band as int, (stages - 1) as nat).works.board,
                net,
                sources@,
                from@,
            ),
        decreases stages - stage,
    {
        let ghost c = staged(l, w, sources@, target, decay, band as int, (stage - 1) as nat);
        let near = stage_place(anchor, target, band, stage, stages);
        let ghost after = staged(l, w, sources@, target, decay, band as int, stage as nat);
        proof {
            if ended(after) {
                lemma_staged_ends(
                    l,
                    w,
                    sources@,
                    target,
                    decay,
                    band as int,
                    stage as nat,
                    (stages - 1) as nat,
                );
            }
        }
        let site = match find_best_site(r, g, near, net) {
            Some(s) => s,
            None => {
                return Err(no_site(near, net));
            },
        };
        match hop(g, r, net, &from, site, bounds, material, carry, stage_label(stage, stages), Ghost(c)) {
            Ok(Hop::Arrived(p)) => {
                proof {
                    assert(relay_clear(c.works.board, c.works.cells, site, net)) by {
                        reveal(roomiest);
                        lemma_best_clear(c.works.board, c.works.cells, near, net, 0, None, 0);
                    }
                    lemma_hops_keep(w.board, c.works.board, after.works.board, net, sources@, from@, p);
                }
                from = Vec::new();
                from.push(p);
                assert(from@ =~= seq![p]);
                carry = 0;
                proof {
                    lemma_still_apart_trans(w.board, c.works.board, after.works.board);
                }
            },
            Ok(Hop::Stalled(m)) => {
                return Err(m);
            },
            Err(m) => {
                return Err(m);
            },
        }
        stage = stage + 1;
    }
    let ghost c = staged(l, w, sources@, target, decay, band as int, (stages - 1) as nat);
    proof {
        lemma_landing_keeps(w.board, c.works.board, net, sources@, from@, target);
    }
    route_on(g, r, net, &from, target, bounds, material, carry, Ghost(c.works))
}

/// The hops so far took no wire of another net: they left from the sources, or leave from
/// wire of their own.
spec fn hops_keep(a: Board, b: Board, net: NetId, sources: Seq<Pos>, from: Seq<Pos>) -> bool {
    &&& keeps_others(a, b, net, sources.to_set())
    &&& from == sources || (from.len() == 1 && owned(b, from[0], net))
}

proof fn lemma_hops_keep(a: Board, b: Board, c: Board, net: NetId, sources: Seq<Pos>, from: Seq<Pos>, p: Pos)
    requires
        hops_keep(a, b, net, sources, from),
        keeps_others(b, c, net, from.to_set()),
        owned(c, p, net),
    ensures
        hops_keep(a, c, net, sources, seq![p]),
{
    assert forall|q: Pos| #[trigger]
        a.owner.contains_key(q) && (a.owner[q] == net || !sources.to_set().contains(q)) implies c.owner.contains_key(q)
        && c.owner[q] == a.owner[q] by {
        assert(b.owner.contains_key(q));
        if b.owner[q] != net && from != sources {
            if from.to_set().contains(q) {
                assert(from[0] == q);
            }
        }
    }
}

proof fn lemma_landing_keeps(a: Board, b: Board, net: NetId, sources: Seq<Pos>, from: Seq<Pos>, to: Pos)
    requires
        hops_keep(a, b, net, sources, from),
    ensures
        forall|c: Board| #[trigger]
            keeps_others(b, c, net, route_ends(from, to)) ==> keeps_others(a, c, net, route_ends(sources, to)),
{
    assert forall|c: Board| #[trigger] keeps_others(b, c, net, route_ends(from, to)) implies keeps_others(
        a,
        c,
        net,
        route_ends(sources, to),
    ) by {
        assert forall|q: Pos| #[trigger]
            a.owner.contains_key(q) && (a.owner[q] == net || !route_ends(sources, to).contains(q)) implies c.owner.contains_key(
            q,
        ) && c.owner[q] == a.owner[q] by {
            assert(b.owner.contains_key(q));
            if b.owner[q] != net && from != sources {
                if from.to_set().contains(q) {
                    assert(from[0] == q);
                }
            }
        }
    }
}

proof fn lemma_anchor(sources: Seq<Pos>, target: Pos, n: nat)
    requires
        0 < sources.len(),
        n <= sources.len(),
        forall|i: int| 0 <= i < sources.len() ==> within(#[trigger] sources[i], 0x0a00_0000),
    ensures
        within(anchor_of(sources, target, n), 0x0a00_0000),
    decreases n,
{
    if n > 1 {
        lemma_anchor(sources, target, (n - 1) as nat);
        assert(within(sources[n - 1], 0x0a00_0000));
    } else {
        assert(within(sources[0], 0x0a00_0000));
    }
}

} // verus!
