//! What a latch remembers: two cells, each feeding the other.
use crate::logic::{
    any_on, cell_alone, cell_repeaters, cell_stands, driven_only_by, fed_only_from, input_at,
    is_component, is_repeater, lemma_cell_hears, lemma_level_link, lemma_placed,
    lemma_stamped_stands, pad_at, pad_cells, pad_settled, pad_width, settled, torch_at,
};
use crate::redstone::{
    around, at_rest, dust_level, ends_of, is_torch, link, on, powered, repeater_reads, target_of,
    Circuit,
};
use crate::steps::{built, lemma_built_join, lemma_built_push, taken, Step};
use crate::tech::{
    along, dust, flight_steps, in_world, is_refresh, latch_b, latch_built, latch_started, link_steps,
    moved, nor_feeds, nor_out, nor_steps, repeater, return_steps, run_block, run_since, run_steps,
    run_x_steps, staged_steps, switched_on, turn_steps, MAX_RUN,
};
use crate::wires::{conducts, leads, lemma_wire, wire_alone};
use crate::world::{
    above, all_interior, below, beside, block_at, is_dust, opaque_block, opposite_of, Block, Dir, Material,
    Pos,
};
use vstd::prelude::*;

verus! {

// --- the latch -----------------------------------------------------------------------------

/// The wire from the first cell's output towards the second cell.
pub open spec fn forth_out(base: Pos) -> Seq<Pos> {
    Seq::new(
        9,
        |i: int|
            if i == 0 {
                nor_out(base)
            } else if i < 8 {
                moved(base, i - 1, 1, 3)
            } else {
                moved(base, 6, 1, 4)
            },
    )
}

/// The repeater between the two halves of the way forth.
pub open spec fn forth_repeater(base: Pos) -> Pos {
    moved(base, 6, 1, 5)
}

/// The dust at the second cell's first input.
pub open spec fn forth_in(base: Pos) -> Seq<Pos> {
    seq![moved(base, 6, 1, 6)]
}

/// The wire from the second cell's output towards the first cell, round the west.
pub open spec fn back_out(base: Pos) -> Seq<Pos> {
    Seq::new(
        13,
        |i: int|
            if i == 0 {
                nor_out(latch_b(base))
            } else if i < 11 {
                moved(base, 7 - i, 1, 11)
            } else {
                moved(base, -3, 1, 21 - i)
            },
    )
}

/// The repeater between the two halves of the way back.
pub open spec fn back_repeater(base: Pos) -> Pos {
    moved(base, -3, 1, 8)
}

/// The wire to the first cell's first input.
pub open spec fn back_in(base: Pos) -> Seq<Pos> {
    Seq::new(
        13,
        |i: int|
            if i < 10 {
                moved(base, -3, 1, 7 - i)
            } else {
                moved(base, i - 12, 1, -2)
            },
    )
}

/// All of a wire is dust.
pub open spec fn is_wire(cells: Map<Pos, Block>, w: Seq<Pos>) -> bool {
    forall|i: int| 0 <= i < w.len() ==> is_dust(block_at(cells, #[trigger] w[i]))
}

/// The blocks of an RS latch stand at `base`, in any state.
pub open spec fn latch_stands(cells: Map<Pos, Block>, base: Pos) -> bool {
    &&& cell_stands(cells, base, 2)
    &&& cell_stands(cells, latch_b(base), 3)
    &&& is_wire(cells, forth_out(base))
    &&& is_repeater(block_at(cells, forth_repeater(base)), Dir::North)
    &&& is_wire(cells, forth_in(base))
    &&& is_wire(cells, back_out(base))
    &&& is_repeater(block_at(cells, back_repeater(base)), Dir::South)
    &&& is_wire(cells, back_in(base))
    // The wires climb from the outputs.
    &&& block_at(cells, moved(base, 0, 0, 3)) is Solid
    &&& !opaque_block(block_at(cells, moved(base, 0, 1, 2)))
    &&& block_at(cells, moved(base, 6, 0, 11)) is Solid
    &&& !opaque_block(block_at(cells, moved(base, 6, 1, 10)))
}

/// Nothing else drives or joins the cells and the wires of a latch.
pub open spec fn latch_alone(cells: Map<Pos, Block>, base: Pos) -> bool {
    &&& cell_alone(cells, base, 2)
    &&& cell_alone(cells, latch_b(base), 3)
    &&& wire_alone(cells, forth_out(base), torch_at(base))
    &&& wire_alone(cells, forth_in(base), forth_repeater(base))
    &&& wire_alone(cells, back_out(base), torch_at(latch_b(base)))
    &&& wire_alone(cells, back_in(base), back_repeater(base))
}

/// The three inputs: the repeaters that read set, reset and clear.
pub open spec fn set_input(base: Pos) -> Pos {
    input_at(base, 1)
}

pub open spec fn reset_input(base: Pos) -> Pos {
    input_at(latch_b(base), 1)
}

pub open spec fn clear_input(base: Pos) -> Pos {
    input_at(latch_b(base), 2)
}

/// The components of the loop: all of the latch but its three inputs.
pub open spec fn loop_parts(base: Pos) -> Set<Pos> {
    set![
        torch_at(base),
        forth_repeater(base),
        input_at(latch_b(base), 0),
        torch_at(latch_b(base)),
        back_repeater(base),
        input_at(base, 0),
    ]
}

proof fn lemma_forth_conducts(cells: Map<Pos, Block>, base: Pos)
    requires
        in_world(base),
        is_wire(cells, forth_out(base)),
        block_at(cells, moved(base, 0, 0, 3)) is Solid,
        !opaque_block(block_at(cells, moved(base, 0, 1, 2))),
    ensures
        conducts(cells, forth_out(base)),
{
    reveal(conducts);
    let w = forth_out(base);
    assert forall|i: int| 0 < i < w.len() implies leads(cells, w[i - 1], #[trigger] w[i]) by {
        if i == 1 {
            lemma_climbs(cells, w[0], w[1]);
        } else if i < 8 {
            assert(beside(w[i - 1], Dir::East) == w[i]);
            lemma_level_link(cells, w[i - 1], Dir::East);
        } else {
            assert(beside(w[i - 1], Dir::South) == w[i]);
            lemma_level_link(cells, w[i - 1], Dir::South);
        }
    }
}

/// Dust conducts south and up, where a block carries the dust above and nothing caps it.
proof fn lemma_climbs(cells: Map<Pos, Block>, p: Pos, q: Pos)
    requires
        is_dust(block_at(cells, p)),
        is_dust(block_at(cells, q)),
        q == above(beside(p, Dir::South)),
        block_at(cells, beside(p, Dir::South)) is Solid,
        !opaque_block(block_at(cells, above(p))),
    ensures
        leads(cells, p, q),
{
    assert(link(cells, p, Dir::South) == Some(q));
}

proof fn lemma_back_out_conducts(cells: Map<Pos, Block>, base: Pos)
    requires
        in_world(base),
        is_wire(cells, back_out(base)),
        block_at(cells, moved(base, 6, 0, 11)) is Solid,
        !opaque_block(block_at(cells, moved(base, 6, 1, 10))),
    ensures
        conducts(cells, back_out(base)),
{
    reveal(conducts);
    let w = back_out(base);
    assert forall|i: int| 0 < i < w.len() implies leads(cells, w[i - 1], #[trigger] w[i]) by {
        if i == 1 {
            lemma_climbs(cells, w[0], w[1]);
        } else if i < 11 {
            assert(beside(w[i - 1], Dir::West) == w[i]);
            lemma_level_link(cells, w[i - 1], Dir::West);
        } else {
            assert(beside(w[i - 1], Dir::North) == w[i]);
            lemma_level_link(cells, w[i - 1], Dir::North);
        }
    }
}

proof fn lemma_back_in_conducts(cells: Map<Pos, Block>, base: Pos)
    requires
        in_world(base),
        is_wire(cells, back_in(base)),
    ensures
        conducts(cells, back_in(base)),
{
    reveal(conducts);
    let w = back_in(base);
    assert forall|i: int| 0 < i < w.len() implies leads(cells, w[i - 1], #[trigger] w[i]) by {
        if i < 10 {
            assert(beside(w[i - 1], Dir::North) == w[i]);
            lemma_level_link(cells, w[i - 1], Dir::North);
        } else {
            assert(beside(w[i - 1], Dir::East) == w[i]);
            lemma_level_link(cells, w[i - 1], Dir::East);
        }
    }
}

/// A repeater at the end of a wire reads the torch that drives it.
proof fn lemma_torch_carries(
    cells: Map<Pos, Block>,
    c: Circuit,
    w: Seq<Pos>,
    t: Pos,
    reader: Pos,
    facing: Dir,
)
    requires
        0 < w.len() <= 15,
        conducts(cells, w),
        wire_alone(cells, w, t),
        block_at(cells, t) is WallTorch,
        beside(t, Dir::South) == w[0],
        beside(reader, facing) == w.last(),
    ensures
        repeater_reads(cells, c, reader, facing) == on(c.torch_lit, t),
        on(c.torch_lit, t) ==> dust_level(cells, c, w[0]) == 15,
        !on(c.torch_lit, t) ==> dust_level(cells, c, w[0]) == 0,
{
    reveal(conducts);
    assert(ends_of(block_at(cells, t), t)[1] == w[0]);
    lemma_wire(cells, c, w, t);
}

/// A repeater at the end of a wire reads the repeater that drives it.
proof fn lemma_repeater_carries(
    cells: Map<Pos, Block>,
    c: Circuit,
    w: Seq<Pos>,
    q: Pos,
    from: Dir,
    reader: Pos,
)
    requires
        0 < w.len() <= 15,
        conducts(cells, w),
        wire_alone(cells, w, q),
        is_repeater(block_at(cells, q), from),
        beside(q, opposite_of(from)) == w[0],
        beside(reader, Dir::North) == w.last(),
    ensures
        repeater_reads(cells, c, reader, Dir::North) == on(c.repeater_powered, q),
{
    reveal(conducts);
    assert(ends_of(block_at(cells, q), q)[0] == w[0]);
    lemma_wire(cells, c, w, q);
}

proof fn lemma_forth_reads(cells: Map<Pos, Block>, c: Circuit, base: Pos)
    requires
        in_world(base),
        conducts(cells, forth_out(base)),
        conducts(cells, forth_in(base)),
        wire_alone(cells, forth_out(base), torch_at(base)),
        wire_alone(cells, forth_in(base), forth_repeater(base)),
        block_at(cells, torch_at(base)) is WallTorch,
        is_repeater(block_at(cells, forth_repeater(base)), Dir::North),
    ensures
        repeater_reads(cells, c, forth_repeater(base), Dir::North) == on(c.torch_lit, torch_at(base)),
        repeater_reads(cells, c, input_at(latch_b(base), 0), Dir::North) == on(
            c.repeater_powered,
            forth_repeater(base),
        ),
        on(c.torch_lit, torch_at(base)) ==> dust_level(cells, c, nor_out(base)) == 15,
        !on(c.torch_lit, torch_at(base)) ==> dust_level(cells, c, nor_out(base)) == 0,
{
    let q = forth_repeater(base);
    let end = input_at(latch_b(base), 0);
    assert(forth_out(base)[0] == nor_out(base));
    assert(beside(torch_at(base), Dir::South) == nor_out(base));
    assert(beside(q, Dir::North) == forth_out(base).last());
    assert(beside(q, Dir::South) == forth_in(base)[0]);
    assert(beside(end, Dir::North) == forth_in(base).last());
    lemma_torch_carries(cells, c, forth_out(base), torch_at(base), q, Dir::North);
    lemma_repeater_carries(cells, c, forth_in(base), q, Dir::North, end);
}

proof fn lemma_back_reads(cells: Map<Pos, Block>, c: Circuit, base: Pos)
    requires
        in_world(base),
        conducts(cells, back_out(base)),
        conducts(cells, back_in(base)),
        wire_alone(cells, back_out(base), torch_at(latch_b(base))),
        wire_alone(cells, back_in(base), back_repeater(base)),
        block_at(cells, torch_at(latch_b(base))) is WallTorch,
        is_repeater(block_at(cells, back_repeater(base)), Dir::South),
    ensures
        repeater_reads(cells, c, back_repeater(base), Dir::South) == on(
            c.torch_lit,
            torch_at(latch_b(base)),
        ),
        repeater_reads(cells, c, input_at(base, 0), Dir::North) == on(
            c.repeater_powered,
            back_repeater(base),
        ),
        on(c.torch_lit, torch_at(latch_b(base))) ==> dust_level(cells, c, nor_out(latch_b(base))) == 15,
        !on(c.torch_lit, torch_at(latch_b(base))) ==> dust_level(cells, c, nor_out(latch_b(base))) == 0,
{
    let q = back_repeater(base);
    let end = input_at(base, 0);
    let t = torch_at(latch_b(base));
    assert(back_out(base)[0] == nor_out(latch_b(base)));
    assert(beside(t, Dir::South) == back_out(base)[0]);
    assert(beside(q, Dir::South) == back_out(base).last());
    assert(beside(q, Dir::North) == back_in(base)[0]);
    assert(beside(end, Dir::North) == back_in(base).last());
    lemma_torch_carries(cells, c, back_out(base), t, q, Dir::South);
    lemma_repeater_carries(cells, c, back_in(base), q, Dir::South, end);
}

/// What each part of the loop reads, in any state.
proof fn lemma_loop_reads(cells: Map<Pos, Block>, c: Circuit, base: Pos)
    requires
        in_world(base),
        in_world(latch_b(base)),
        latch_stands(cells, base),
        latch_alone(cells, base),
    ensures
        repeater_reads(cells, c, forth_repeater(base), Dir::North) == on(c.torch_lit, torch_at(base)),
        repeater_reads(cells, c, input_at(latch_b(base), 0), Dir::North) == on(
            c.repeater_powered,
            forth_repeater(base),
        ),
        repeater_reads(cells, c, back_repeater(base), Dir::South) == on(
            c.torch_lit,
            torch_at(latch_b(base)),
        ),
        repeater_reads(cells, c, input_at(base, 0), Dir::North) == on(
            c.repeater_powered,
            back_repeater(base),
        ),
        on(c.torch_lit, torch_at(base)) ==> dust_level(cells, c, nor_out(base)) == 15,
        !on(c.torch_lit, torch_at(base)) ==> dust_level(cells, c, nor_out(base)) == 0,
        on(c.torch_lit, torch_at(latch_b(base))) ==> dust_level(cells, c, nor_out(latch_b(base))) == 15,
        !on(c.torch_lit, torch_at(latch_b(base))) ==> dust_level(cells, c, nor_out(latch_b(base))) == 0,
{
    assert(conducts(cells, forth_in(base))) by {
        reveal(conducts);
    }
    lemma_forth_conducts(cells, base);
    lemma_back_out_conducts(cells, base);
    lemma_back_in_conducts(cells, base);
    lemma_forth_reads(cells, c, base);
    lemma_back_reads(cells, c, base);
}

/// What each cell of the loop hears, in any state.
proof fn lemma_loop_hears(cells: Map<Pos, Block>, c: Circuit, base: Pos)
    requires
        in_world(base),
        in_world(latch_b(base)),
        all_interior(cells),
        latch_stands(cells, base),
        latch_alone(cells, base),
    ensures
        powered(cells, c, base) <==> on(c.repeater_powered, input_at(base, 0)) || on(
            c.repeater_powered,
            set_input(base),
        ),
        powered(cells, c, latch_b(base)) <==> on(c.repeater_powered, input_at(latch_b(base), 0)) || on(
            c.repeater_powered,
            reset_input(base),
        ) || on(c.repeater_powered, clear_input(base)),
{
    let b = latch_b(base);
    assert(pad_settled(cells, c, base, 2)) by {
        assert forall|j: int| 0 <= j < pad_width(2) implies !is_refresh(j) by {}
    }
    assert(pad_settled(cells, c, b, 3)) by {
        assert forall|j: int| 0 <= j < pad_width(3) implies !is_refresh(j) by {}
    }
    lemma_cell_hears(cells, c, base, 2);
    lemma_cell_hears(cells, c, b, 3);
    if any_on(c, base, 2) {
        let i = choose|i: int| 0 <= i < 2 && on(c.repeater_powered, #[trigger] input_at(base, i));
        assert(i == 0 || i == 1);
    }
    if any_on(c, b, 3) {
        let i = choose|i: int| 0 <= i < 3 && on(c.repeater_powered, #[trigger] input_at(b, i));
        assert(i == 0 || i == 1 || i == 2);
    }
}

/// An RS latch remembers. In a circuit at rest, while set reads a signal and neither
/// reset nor clear does, Q is high; while reset or clear reads one, Q is low, whatever
/// set does; and while none of the three does, Q and its complement differ.
pub proof fn lemma_latch(cells: Map<Pos, Block>, c: Circuit, base: Pos)
    requires
        in_world(base),
        in_world(latch_b(base)),
        all_interior(cells),
        latch_stands(cells, base),
        latch_alone(cells, base),
        at_rest(cells, c),
    ensures
        ({
            let set = repeater_reads(cells, c, set_input(base), Dir::North);
            let reset = repeater_reads(cells, c, reset_input(base), Dir::North);
            let clear = repeater_reads(cells, c, clear_input(base), Dir::North);
            let q = dust_level(cells, c, nor_out(latch_b(base)));
            let q_not = dust_level(cells, c, nor_out(base));
            &&& q == 0 || q == 15
            &&& q_not == 0 || q_not == 15
            &&& set && !reset && !clear ==> q == 15 && q_not == 0
            &&& reset || clear ==> q == 0 && (q_not == 15 <==> !set)
            &&& !set && !reset && !clear ==> q + q_not == 15
        }),
{
    let b = latch_b(base);
    lemma_loop_reads(cells, c, base);
    lemma_loop_hears(cells, c, base);
    assert(is_repeater(block_at(cells, input_at(base, 0)), Dir::North));
    assert(is_repeater(block_at(cells, input_at(base, 1)), Dir::North));
    assert(is_repeater(block_at(cells, input_at(b, 0)), Dir::North));
    assert(is_repeater(block_at(cells, input_at(b, 1)), Dir::North));
    assert(is_repeater(block_at(cells, input_at(b, 2)), Dir::North));
    assert(is_torch(block_at(cells, torch_at(base))));
    assert(is_torch(block_at(cells, torch_at(b))));
    assert(beside(torch_at(base), Dir::North) == base);
    assert(beside(torch_at(b), Dir::North) == b);
}

/// Q stays when the inputs drop. Take a latch at rest whose outputs differ, and any
/// circuit with its loop in the same state and its three inputs off: there Q is what it
/// was, and all of the loop agrees with the power around it, so nothing in it changes.
pub proof fn lemma_latch_holds(cells: Map<Pos, Block>, c: Circuit, later: Circuit, base: Pos)
    requires
        in_world(base),
        in_world(latch_b(base)),
        all_interior(cells),
        latch_stands(cells, base),
        latch_alone(cells, base),
        at_rest(cells, c),
        dust_level(cells, c, nor_out(latch_b(base))) != dust_level(cells, c, nor_out(base)),
        forall|p: Pos| #[trigger]
            loop_parts(base).contains(p) ==> on(later.torch_lit, p) == on(c.torch_lit, p) && on(
                later.repeater_powered,
                p,
            ) == on(c.repeater_powered, p),
        !on(later.repeater_powered, set_input(base)),
        !on(later.repeater_powered, reset_input(base)),
        !on(later.repeater_powered, clear_input(base)),
    ensures
        dust_level(cells, later, nor_out(latch_b(base))) == dust_level(cells, c, nor_out(latch_b(base))),
        dust_level(cells, later, nor_out(base)) == dust_level(cells, c, nor_out(base)),
        forall|p: Pos| #[trigger] loop_parts(base).contains(p) ==> settled(cells, later, p),
{
    let b = latch_b(base);
    lemma_loop_reads(cells, c, base);
    lemma_loop_hears(cells, c, base);
    lemma_loop_reads(cells, later, base);
    lemma_loop_hears(cells, later, base);
    assert(loop_parts(base).contains(torch_at(base)));
    assert(loop_parts(base).contains(torch_at(b)));
    assert(loop_parts(base).contains(forth_repeater(base)));
    assert(loop_parts(base).contains(back_repeater(base)));
    assert(loop_parts(base).contains(input_at(base, 0)));
    assert(loop_parts(base).contains(input_at(b, 0)));
    assert(is_repeater(block_at(cells, input_at(base, 0)), Dir::North));
    assert(is_repeater(block_at(cells, input_at(b, 0)), Dir::North));
    assert(is_torch(block_at(cells, torch_at(base))));
    assert(is_torch(block_at(cells, torch_at(b))));
    assert(beside(torch_at(base), Dir::North) == base);
    assert(beside(torch_at(b), Dir::North) == b);
}

// --- stamped latches stand -------------------------------------------------------------------

/// The same block but for its state.
spec fn alike(a: Block, b: Block) -> bool {
    &&& a != Block::Air ==> b != Block::Air
    &&& is_dust(a) ==> is_dust(b)
    &&& a is Solid ==> b is Solid
    &&& match a {
        Block::Repeater { facing, .. } => is_repeater(b, facing),
        Block::WallTorch { facing, .. } => match b {
            Block::WallTorch { facing: f, .. } => f == facing,
            _ => false,
        },
        _ => true,
    }
}

/// Whatever stands in `a` stands in `b`, in any state.
spec fn kept(a: Map<Pos, Block>, b: Map<Pos, Block>) -> bool {
    forall|p: Pos| alike(block_at(a, p), #[trigger] block_at(b, p))
}

proof fn lemma_kept(a: Map<Pos, Block>, b: Map<Pos, Block>, c: Map<Pos, Block>)
    requires
        kept(a, b),
        kept(b, c),
    ensures
        kept(a, c),
{
    assert forall|p: Pos| alike(block_at(a, p), #[trigger] block_at(c, p)) by {
        assert(alike(block_at(a, p), block_at(b, p)));
    }
}

proof fn lemma_built_kept(cells: Map<Pos, Block>, steps: Seq<Step>)
    ensures
        kept(cells, built(cells, steps).0),
    decreases steps.len(),
{
    if steps.len() > 0 {
        lemma_built_kept(cells, steps.drop_last());
        let before = built(cells, steps.drop_last());
        assert(kept(before.0, taken(before.0, steps.last()).0));
        lemma_kept(cells, before.0, taken(before.0, steps.last()).0);
    }
}

proof fn lemma_cell_kept(a: Map<Pos, Block>, b: Map<Pos, Block>, base: Pos, k: nat)
    requires
        kept(a, b),
        cell_stands(a, base, k),
    ensures
        cell_stands(b, base, k),
{
    assert(alike(block_at(a, torch_at(base)), block_at(b, torch_at(base))));
    assert(alike(block_at(a, nor_out(base)), block_at(b, nor_out(base))));
    assert(alike(block_at(a, moved(base, 0, -1, 2)), block_at(b, moved(base, 0, -1, 2))));
}

proof fn lemma_wire_kept(a: Map<Pos, Block>, b: Map<Pos, Block>, w: Seq<Pos>)
    requires
        kept(a, b),
        is_wire(a, w),
    ensures
        is_wire(b, w),
{
    assert forall|i: int| 0 <= i < w.len() implies is_dust(block_at(b, #[trigger] w[i])) by {
        assert(alike(block_at(a, w[i]), block_at(b, w[i])));
    }
}

/// What a run has placed.
proof fn lemma_run_placed(
    cells: Map<Pos, Block>,
    p: Pos,
    d: Dir,
    total: nat,
    mat: Material,
    since: int,
    n: nat,
    i: nat,
)
    requires
        1 <= i <= n,
        built(cells, run_steps(p, d, total, mat, since, n)).1 is None,
    ensures
        block_at(built(cells, run_steps(p, d, total, mat, since, n)).0, along(p, d, i as int)) == run_block(
            d,
            total,
            since,
            i,
        ),
    decreases n,
{
    let last = run_steps(p, d, total, mat, since, n);
    let before = run_steps(p, d, total, mat, since, (n - 1) as nat);
    let rest = seq![last[last.len() - 2], last[last.len() - 1]];
    assert(last =~= before + rest);
    lemma_built_join(cells, before, rest);
    if i < n {
        lemma_run_placed(cells, p, d, total, mat, since, (n - 1) as nat, i);
        lemma_placed_kept(cells, before, rest, along(p, d, i as int));
    } else {
        lemma_placed(cells, last, last.len() - 1);
    }
}

/// What has been placed is not replaced.
proof fn lemma_placed_kept(cells: Map<Pos, Block>, a: Seq<Step>, b: Seq<Step>, p: Pos)
    requires
        built(cells, a + b).1 is None,
        block_at(built(cells, a).0, p) != Block::Air,
    ensures
        block_at(built(cells, a + b).0, p) == block_at(built(cells, a).0, p),
    decreases b.len(),
{
    if b.len() == 0 {
        assert(a + b =~= a);
    } else {
        assert((a + b).drop_last() =~= a + b.drop_last());
        assert((a + b).last() == b.last());
        lemma_placed_kept(cells, a, b.drop_last(), p);
    }
}

/// A run leaves everything off its line alone.
proof fn lemma_run_beside(
    cells: Map<Pos, Block>,
    p: Pos,
    d: Dir,
    total: nat,
    mat: Material,
    since: int,
    n: nat,
    q: Pos,
)
    requires
        forall|i: int|
            1 <= i <= n ==> #[trigger] along(p, d, i) != q && moved(along(p, d, i), 0, -1, 0) != q,
    ensures
        block_at(built(cells, run_steps(p, d, total, mat, since, n)).0, q) == block_at(cells, q),
    decreases n,
{
    if n > 0 {
        let before = run_steps(p, d, total, mat, since, (n - 1) as nat);
        let at = along(p, d, n as int);
        let one = Step::Put(moved(at, 0, -1, 0), Block::Solid(mat));
        let two = Step::Put(at, run_block(d, total, since, n));
        lemma_run_beside(cells, p, d, total, mat, since, (n - 1) as nat, q);
        assert(run_steps(p, d, total, mat, since, n) =~= before.push(one).push(two));
        lemma_built_push(cells, before, one);
        lemma_built_push(cells, before.push(one), two);
    }
}

/// A short run is dust throughout.
proof fn lemma_short_run(d: Dir, total: nat, since: int, n: nat)
    requires
        0 <= since,
        since + n < MAX_RUN,
    ensures
        run_since(total, since, n) == since + n,
        n > 0 ==> run_block(d, total, since, n) == dust(),
    decreases n,
{
    if n > 0 {
        lemma_short_run(d, total, since, (n - 1) as nat);
    }
}

/// The run north along the way back: its third block is a repeater.
proof fn lemma_back_run(n: nat)
    requires
        n <= 13,
    ensures
        run_since(13, 10, n) == if n < 3 {
            10int + n
        } else {
            n - 3
        },
        n > 0 && n != 3 ==> run_block(Dir::North, 13, 10, n) == dust(),
        n == 3 ==> run_block(Dir::North, 13, 10, n) == repeater(Dir::South),
    decreases n,
{
    if n > 0 {
        lemma_back_run((n - 1) as nat);
    }
}

/// The way forth that the steps of a link build.
proof fn lemma_forth_built(cells: Map<Pos, Block>, base: Pos)
    requires
        in_world(base),
        in_world(latch_b(base)),
        is_dust(block_at(cells, nor_out(base))),
        ({
            let feed = nor_feeds(latch_b(base), 3)[0];
            built(cells, link_steps(nor_out(base), feed, feed.1, None, Material::Gate)).1 is None
        }),
    ensures
        ({
            let feed = nor_feeds(latch_b(base), 3)[0];
            let after = built(cells, link_steps(nor_out(base), feed, feed.1, None, Material::Gate)).0;
            &&& is_wire(after, forth_out(base))
            &&& is_repeater(block_at(after, forth_repeater(base)), Dir::North)
            &&& is_wire(after, forth_in(base))
            &&& block_at(after, moved(base, 0, 0, 3)) is Solid
            &&& !opaque_block(block_at(after, moved(base, 0, 1, 2)))
        }),
{
    let mat = Material::Gate;
    let out = nor_out(base);
    let feed = nor_feeds(latch_b(base), 3)[0];
    let all = link_steps(out, feed, feed.1, None, mat);
    assert(feed == moved(base, 6, 1, 6));
    let climb = flight_steps(out.0, out.1 as int, out.2 as int, 1, 1, mat, 0, true, 1);
    reveal_with_fuel(staged_steps, 2);
    reveal_with_fuel(flight_steps, 2);
    reveal_with_fuel(run_steps, 2);
    assert(staged_steps(out.0, out.1 as int, out.2 as int, feed.1 as int, 1, mat, 0) == climb);
    let p = moved(base, 0, 1, 3);
    let cross = run_steps(p, Dir::East, 6, mat, 1, 6);
    assert(run_x_steps(feed.1, (out.2 + 1) as i32, out.0, feed.0, mat, 1) == cross);
    let last = turn_steps(feed.0, feed.1, base.2 + 3, mat);
    assert(all =~= climb + cross + last);
    lemma_built_join(cells, climb + cross, last);
    lemma_built_join(cells, climb, cross);
    let g1 = built(cells, climb).0;
    let g2 = built(g1, cross).0;
    let g3 = built(g2, last).0;
    assert(built(cells, all).0 == g3);
    // The climb.
    assert(climb =~= seq![
        Step::Put(moved(base, 0, 0, 3), Block::Solid(mat)),
        Step::Put(p, dust()),
        climb[2],
    ]);
    assert(climb[2] is Open && climb[2]->Open_0 == moved(base, 0, 1, 2));
    lemma_placed(cells, climb, 0);
    lemma_placed(cells, climb, 1);
    assert(climb.last() == climb[2]);
    assert(!opaque_block(block_at(g1, moved(base, 0, 1, 2))));
    lemma_built_kept(cells, climb);
    lemma_built_kept(g1, cross);
    lemma_built_kept(g2, last);
    lemma_kept(g1, g2, g3);
    lemma_kept(cells, g1, g3);
    assert(alike(block_at(g1, moved(base, 0, 0, 3)), block_at(g3, moved(base, 0, 0, 3))));
    // The clear cell above the output.
    let gap = moved(base, 0, 1, 2);
    lemma_run_beside(g1, p, Dir::East, 6, mat, 1, 6, gap);
    lemma_elsewhere(g2, last, gap);
    // The wire.
    assert forall|i: int| 0 <= i < 9 implies is_dust(block_at(g3, #[trigger] forth_out(base)[i])) by {
        let q = forth_out(base)[i];
        if i == 0 {
            assert(alike(block_at(cells, q), block_at(g3, q)));
        } else if i == 1 {
            assert(alike(block_at(g1, q), block_at(g3, q)));
        } else if i < 8 {
            lemma_run_placed(g1, p, Dir::East, 6, mat, 1, 6, (i - 1) as nat);
            lemma_short_run(Dir::East, 6, 1, (i - 1) as nat);
            assert(along(p, Dir::East, i - 1) == q);
            assert(alike(block_at(g2, q), block_at(g3, q)));
        } else {
            lemma_placed(g2, last, 1);
        }
    }
    lemma_placed(g2, last, 3);
    lemma_placed(g2, last, 5);
}

/// Steps that place nothing at `q` leave it alone.
proof fn lemma_elsewhere(cells: Map<Pos, Block>, steps: Seq<Step>, q: Pos)
    requires
        forall|i: int| 0 <= i < steps.len() && (#[trigger] steps[i]) is Put ==> steps[i]->Put_0 != q,
    ensures
        block_at(built(cells, steps).0, q) == block_at(cells, q),
    decreases steps.len(),
{
    if steps.len() > 0 {
        assert forall|i: int| 0 <= i < steps.drop_last().len() && (#[trigger] steps.drop_last()[i]) is Put implies steps.drop_last()[i]->Put_0
            != q by {
            assert(steps.drop_last()[i] == steps[i]);
        }
        lemma_elsewhere(cells, steps.drop_last(), q);
        assert(steps.last() == steps[steps.len() - 1]);
    }
}

/// The way back that its steps build.
proof fn lemma_back_built(cells: Map<Pos, Block>, base: Pos)
    requires
        in_world(base),
        in_world(latch_b(base)),
        is_dust(block_at(cells, nor_out(latch_b(base)))),
        built(cells, return_steps(base)).1 is None,
    ensures
        ({
            let after = built(cells, return_steps(base)).0;
            &&& is_wire(after, back_out(base))
            &&& is_repeater(block_at(after, back_repeater(base)), Dir::South)
            &&& is_wire(after, back_in(base))
            &&& block_at(after, moved(base, 6, 0, 11)) is Solid
            &&& !opaque_block(block_at(after, moved(base, 6, 1, 10)))
            &&& block_at(after, moved(base, 0, 1, 2)) == block_at(cells, moved(base, 0, 1, 2))
        }),
{
    let mat = Material::Gate;
    let out = nor_out(latch_b(base));
    let p1 = moved(base, 6, 1, 11);
    let climb = back_climb(base);
    let west = run_steps(p1, Dir::West, 9, mat, 1, 9);
    let north = run_steps(moved(base, -3, 1, 11), Dir::North, 13, mat, 10, 13);
    let east = run_steps(moved(base, -3, 1, -2), Dir::East, 3, mat, 10, 3);
    lemma_return_parts(base);
    lemma_built_join(cells, climb + west + north, east);
    lemma_built_join(cells, climb + west, north);
    lemma_built_join(cells, climb, west);
    let g1 = built(cells, climb).0;
    let g2 = built(g1, west).0;
    let g3 = built(g2, north).0;
    let g4 = built(g3, east).0;
    let gap = moved(base, 6, 1, 10);
    lemma_placed(cells, climb, 0);
    lemma_placed(cells, climb, 1);
    assert(climb.last() == climb[2]);
    assert(!opaque_block(block_at(g1, gap)));
    lemma_back_clear(g1, base, gap);
    lemma_elsewhere(cells, climb, moved(base, 0, 1, 2));
    lemma_back_clear(g1, base, moved(base, 0, 1, 2));
    lemma_back_wires(g1, base);
    assert(kept(g1, g4) && kept(cells, g4)) by {
        lemma_built_kept(cells, climb);
        lemma_built_kept(g1, west);
        lemma_built_kept(g2, north);
        lemma_built_kept(g3, east);
        lemma_kept(g2, g3, g4);
        lemma_kept(g1, g2, g4);
        lemma_kept(cells, g1, g4);
    }
    assert(alike(block_at(g1, moved(base, 6, 0, 11)), block_at(g4, moved(base, 6, 0, 11))));
    assert(alike(block_at(cells, out), block_at(g4, out)));
    assert(alike(block_at(g1, p1), block_at(g4, p1)));
    assert forall|i: int| 0 <= i < 13 implies is_dust(block_at(g4, #[trigger] back_out(base)[i])) by {
        assert(back_out(base)[0] == out && back_out(base)[1] == p1);
    }
}

/// The climb from the second cell's output.
spec fn back_climb(base: Pos) -> Seq<Step> {
    flight_steps((base.0 + 6) as i32, base.1 as int, base.2 + 10, 1, 1, Material::Gate, 0, false, 1)
}

/// The way back: a climb, and a run to each of three sides.
proof fn lemma_return_parts(base: Pos)
    requires
        in_world(base),
        in_world(latch_b(base)),
    ensures
        return_steps(base) == back_climb(base) + run_steps(
            moved(base, 6, 1, 11),
            Dir::West,
            9,
            Material::Gate,
            1,
            9,
        ) + run_steps(moved(base, -3, 1, 11), Dir::North, 13, Material::Gate, 10, 13) + run_steps(
            moved(base, -3, 1, -2),
            Dir::East,
            3,
            Material::Gate,
            10,
            3,
        ),
        back_climb(base).len() == 3,
        back_climb(base)[0] == Step::Put(moved(base, 6, 0, 11), Block::Solid(Material::Gate)),
        back_climb(base)[1] == Step::Put(moved(base, 6, 1, 11), dust()),
        back_climb(base)[2] is Open,
        back_climb(base)[2]->Open_0 == moved(base, 6, 1, 10),
{
    let out = nor_out(latch_b(base));
    let feed = nor_feeds(base, 2)[0];
    assert(out == moved(base, 6, 0, 10));
    assert(feed == moved(base, 0, 1, -2));
    reveal_with_fuel(flight_steps, 2);
    lemma_short_run(Dir::West, 9, 1, 9);
    lemma_back_run(13);
}

/// What the runs of the way back place.
proof fn lemma_back_wires(cells: Map<Pos, Block>, base: Pos)
    requires
        in_world(base),
        in_world(latch_b(base)),
        ({
            let mat = Material::Gate;
            let g2 = built(cells, run_steps(moved(base, 6, 1, 11), Dir::West, 9, mat, 1, 9));
            let g3 = built(g2.0, run_steps(moved(base, -3, 1, 11), Dir::North, 13, mat, 10, 13));
            let g4 = built(g3.0, run_steps(moved(base, -3, 1, -2), Dir::East, 3, mat, 10, 3));
            g2.1 is None && g3.1 is None && g4.1 is None
        }),
    ensures
        ({
            let mat = Material::Gate;
            let g2 = built(cells, run_steps(moved(base, 6, 1, 11), Dir::West, 9, mat, 1, 9)).0;
            let g3 = built(g2, run_steps(moved(base, -3, 1, 11), Dir::North, 13, mat, 10, 13)).0;
            let g4 = built(g3, run_steps(moved(base, -3, 1, -2), Dir::East, 3, mat, 10, 3)).0;
            &&& forall|i: int| 2 <= i < 13 ==> is_dust(block_at(g4, #[trigger] back_out(base)[i]))
            &&& is_repeater(block_at(g4, back_repeater(base)), Dir::South)
            &&& is_wire(g4, back_in(base))
        }),
{
    let mat = Material::Gate;
    let p1 = moved(base, 6, 1, 11);
    let p2 = moved(base, -3, 1, 11);
    let p3 = moved(base, -3, 1, -2);
    let west = run_steps(p1, Dir::West, 9, mat, 1, 9);
    let north = run_steps(p2, Dir::North, 13, mat, 10, 13);
    let east = run_steps(p3, Dir::East, 3, mat, 10, 3);
    let g2 = built(cells, west).0;
    let g3 = built(g2, north).0;
    let g4 = built(g3, east).0;
    lemma_built_kept(g2, north);
    lemma_built_kept(g3, east);
    lemma_kept(g2, g3, g4);
    assert forall|i: int| 2 <= i < 13 implies is_dust(block_at(g4, #[trigger] back_out(base)[i])) by {
        let q = back_out(base)[i];
        if i < 11 {
            lemma_run_placed(cells, p1, Dir::West, 9, mat, 1, 9, (i - 1) as nat);
            lemma_short_run(Dir::West, 9, 1, (i - 1) as nat);
            assert(along(p1, Dir::West, i - 1) == q);
            assert(alike(block_at(g2, q), block_at(g4, q)));
        } else {
            lemma_run_placed(g2, p2, Dir::North, 13, mat, 10, 13, (i - 10) as nat);
            lemma_back_run((i - 10) as nat);
            assert(along(p2, Dir::North, i - 10) == q);
            assert(alike(block_at(g3, q), block_at(g4, q)));
        }
    }
    lemma_run_placed(g2, p2, Dir::North, 13, mat, 10, 13, 3);
    lemma_back_run(3);
    assert(along(p2, Dir::North, 3) == back_repeater(base));
    assert(alike(block_at(g3, back_repeater(base)), block_at(g4, back_repeater(base))));
    assert forall|i: int| 0 <= i < 13 implies is_dust(block_at(g4, #[trigger] back_in(base)[i])) by {
        let q = back_in(base)[i];
        if i < 10 {
            lemma_run_placed(g2, p2, Dir::North, 13, mat, 10, 13, (i + 4) as nat);
            lemma_back_run((i + 4) as nat);
            assert(along(p2, Dir::North, i + 4) == q);
            assert(alike(block_at(g3, q), block_at(g4, q)));
        } else {
            lemma_run_placed(g3, p3, Dir::East, 3, mat, 10, 3, (i - 9) as nat);
            lemma_short_run(Dir::East, 3, 10, 2);
            lemma_short_run(Dir::East, 3, 10, 1);
            assert(along(p3, Dir::East, i - 9) == q);
            assert(run_block(Dir::East, 3, 10, (i - 9) as nat) == dust());
        }
    }
}

/// The way back, after its climb, leaves a cell alone that lies above neither run.
proof fn lemma_back_clear(cells: Map<Pos, Block>, base: Pos, q: Pos)
    requires
        in_world(base),
        in_world(latch_b(base)),
        q.0 == base.0 || q.0 == base.0 + 6,
        base.2 <= q.2 <= base.2 + 10,
    ensures
        ({
            let mat = Material::Gate;
            let g2 = built(cells, run_steps(moved(base, 6, 1, 11), Dir::West, 9, mat, 1, 9)).0;
            let g3 = built(g2, run_steps(moved(base, -3, 1, 11), Dir::North, 13, mat, 10, 13)).0;
            let g4 = built(g3, run_steps(moved(base, -3, 1, -2), Dir::East, 3, mat, 10, 3)).0;
            block_at(g4, q) == block_at(cells, q)
        }),
{
    let mat = Material::Gate;
    let g2 = built(cells, run_steps(moved(base, 6, 1, 11), Dir::West, 9, mat, 1, 9)).0;
    let g3 = built(g2, run_steps(moved(base, -3, 1, 11), Dir::North, 13, mat, 10, 13)).0;
    lemma_run_beside(cells, moved(base, 6, 1, 11), Dir::West, 9, mat, 1, 9, q);
    lemma_run_beside(g2, moved(base, -3, 1, 11), Dir::North, 13, mat, 10, 13, q);
    lemma_run_beside(g3, moved(base, -3, 1, -2), Dir::East, 3, mat, 10, 3, q);
}

/// An RS latch that has been stamped stands.
pub proof fn lemma_stamped_latch(cells: Map<Pos, Block>, base: Pos)
    requires
        in_world(base),
        in_world(latch_b(base)),
        latch_built(cells, base).1 is None,
    ensures
        latch_stands(latch_built(cells, base).0, base),
{
    let b = latch_b(base);
    lemma_built_join(cells, nor_steps(base, 2), nor_steps(b, 3));
    let one = built(cells, nor_steps(base, 2)).0;
    let two = built(one, nor_steps(b, 3)).0;
    lemma_stamped_stands(cells, base, 2);
    lemma_stamped_stands(one, b, 3);
    lemma_built_kept(one, nor_steps(b, 3));
    lemma_cell_kept(one, two, base, 2);
    let started = latch_started(two, base);
    assert(kept(two, started)) by {
        assert(is_repeater(block_at(two, input_at(b, 0)), Dir::North));
        assert(input_at(b, 0) == moved(b, 0, 1, -1));
        assert forall|p: Pos| alike(block_at(two, p), #[trigger] block_at(started, p)) by {}
    }
    let feed = nor_feeds(b, 3)[0];
    let linked = built(started, link_steps(nor_out(base), feed, feed.1, None, Material::Gate)).0;
    let on = switched_on(started, linked);
    let after = built(on, return_steps(base)).0;
    assert(latch_built(cells, base).0 == after);
    lemma_cell_kept(two, started, base, 2);
    lemma_cell_kept(two, started, b, 3);
    lemma_forth_built(started, base);
    lemma_built_kept(started, link_steps(nor_out(base), feed, feed.1, None, Material::Gate));
    assert(kept(linked, on)) by {
        assert forall|p: Pos| alike(block_at(linked, p), #[trigger] block_at(on, p)) by {}
    }
    lemma_kept(started, linked, on);
    lemma_cell_kept(started, on, base, 2);
    lemma_cell_kept(started, on, b, 3);
    lemma_built_kept(on, return_steps(base));
    lemma_back_built(on, base);
    lemma_cell_kept(on, after, base, 2);
    lemma_cell_kept(on, after, b, 3);
    lemma_kept(linked, on, after);
    lemma_wire_kept(linked, after, forth_out(base));
    lemma_wire_kept(linked, after, forth_in(base));
    assert(alike(block_at(linked, forth_repeater(base)), block_at(after, forth_repeater(base))));
    assert(alike(block_at(linked, moved(base, 0, 0, 3)), block_at(after, moved(base, 0, 0, 3))));
}

// --- a latch by itself -------------------------------------------------------------------------

/// The wire of a latch that runs through the cell at this distance from its base: the two
/// pads, the two halves of the way forth and those of the way back.
pub open spec fn wire_through(x: int, y: int, z: int) -> int {
    if y == 1 && z == 0 && 0 <= x <= 2 {
        1
    } else if y == 1 && z == 8 && 6 <= x <= 10 {
        2
    } else if (x == 0 && y == 0 && z == 2) || (y == 1 && z == 3 && 0 <= x <= 6) || (x == 6 && y == 1 && z == 4) {
        3
    } else if x == 6 && y == 1 && z == 6 {
        4
    } else if (x == 6 && y == 0 && z == 10) || (y == 1 && z == 11 && -3 <= x <= 6) || (x == -3 && y == 1 && 9
        <= z <= 10) {
        5
    } else if (x == -3 && y == 1 && -2 <= z <= 7) || (y == 1 && z == -2 && -2 <= x <= 0) {
        6
    } else {
        0
    }
}

pub open spec fn wire_at(base: Pos, q: Pos) -> int {
    wire_through(q.0 - base.0, q.1 - base.1, q.2 - base.2)
}

/// Where the components of a latch stand.
pub open spec fn latch_parts(base: Pos) -> Set<Pos> {
    loop_parts(base).insert(set_input(base)).insert(reset_input(base)).insert(clear_input(base))
}

/// All dust and all components are the latch's own, and nothing is mounted over its torches.
pub open spec fn latch_only(cells: Map<Pos, Block>, base: Pos) -> bool {
    &&& forall|q: Pos| is_dust(#[trigger] block_at(cells, q)) ==> wire_at(base, q) > 0
    &&& forall|q: Pos| #[trigger] is_component(cells, q) ==> latch_parts(base).contains(q)
    &&& !(block_at(cells, above(torch_at(base))) is Solid)
    &&& !(block_at(cells, above(torch_at(latch_b(base)))) is Solid)
}

/// No two wires of a latch lie so close that one conducts into the other.
proof fn lemma_same_wire(cells: Map<Pos, Block>, base: Pos, m: Pos, d: Dir, p: Pos)
    requires
        in_world(base),
        latch_only(cells, base),
        link(cells, m, d) == Some(p),
        wire_at(base, p) > 0,
    ensures
        wire_at(base, m) == wire_at(base, p),
{
    assert(is_dust(block_at(cells, m)));
    let n = beside(m, d);
    assert(p == n || p == above(n) || p == below(n));
}

/// What a component of a latch drives is a wire of its own.
proof fn lemma_part_drives(cells: Map<Pos, Block>, base: Pos, q: Pos)
    requires
        in_world(base),
        in_world(latch_b(base)),
        latch_stands(cells, base),
        latch_only(cells, base),
        is_component(cells, q),
    ensures
        !(block_at(cells, target_of(block_at(cells, q), q)) is Solid),
        target_of(block_at(cells, q), q) != base,
        target_of(block_at(cells, q), q) != latch_b(base),
        forall|p: Pos| #[trigger]
            ends_of(block_at(cells, q), q).contains(p) && wire_at(base, p) > 0 ==> {
                &&& wire_at(base, p) == 1 ==> q == input_at(base, 0) || q == input_at(base, 1)
                &&& wire_at(base, p) == 2 ==> q == input_at(latch_b(base), 0) || q == input_at(
                    latch_b(base),
                    1,
                ) || q == input_at(latch_b(base), 2)
                &&& wire_at(base, p) == 3 ==> q == torch_at(base)
                &&& wire_at(base, p) == 4 ==> q == forth_repeater(base)
                &&& wire_at(base, p) == 5 ==> q == torch_at(latch_b(base))
                &&& wire_at(base, p) == 6 ==> q == back_repeater(base)
            },
{
    let b = latch_b(base);
    assert(latch_parts(base).contains(q));
    if q == torch_at(base) || q == torch_at(b) {
        assert(block_at(cells, q) is WallTorch);
    } else if q == input_at(base, 0) || q == input_at(base, 1) {
        let i: int = if q == input_at(base, 0) {
            0
        } else {
            1
        };
        lemma_input_drives(cells, base, 2, i);
    } else if q == input_at(b, 0) || q == input_at(b, 1) || q == input_at(b, 2) {
        let i: int = if q == input_at(b, 0) {
            0
        } else if q == input_at(b, 1) {
            1
        } else {
            2
        };
        lemma_input_drives(cells, b, 3, i);
    } else if q == forth_repeater(base) {
        assert(beside(q, Dir::South) == forth_in(base)[0]);
        assert(is_dust(block_at(cells, forth_in(base)[0])));
    } else {
        assert(q == back_repeater(base));
        assert(beside(q, Dir::North) == back_in(base)[0]);
        assert(is_dust(block_at(cells, back_in(base)[0])));
    }
}

/// An input drives the pad in front of it.
proof fn lemma_input_drives(cells: Map<Pos, Block>, base: Pos, k: nat, i: int)
    requires
        in_world(base),
        k <= 3,
        cell_stands(cells, base, k),
        0 <= i < k,
    ensures
        target_of(block_at(cells, input_at(base, i)), input_at(base, i)) == moved(base, 2 * i, 1, 0),
        ends_of(block_at(cells, input_at(base, i)), input_at(base, i)) =~= seq![moved(base, 2 * i, 1, 0)],
        is_dust(block_at(cells, moved(base, 2 * i, 1, 0))),
{
    assert(is_repeater(block_at(cells, input_at(base, i)), Dir::North));
    assert(beside(input_at(base, i), Dir::South) == moved(base, 2 * i, 1, 0));
    assert(!is_refresh(2 * i));
    assert(is_dust(block_at(cells, pad_at(base, 2 * i))));
}

/// A wire of a latch by itself stands alone.
proof fn lemma_wire_by_itself(cells: Map<Pos, Block>, base: Pos, w: Seq<Pos>, k: int, q: Pos)
    requires
        in_world(base),
        in_world(latch_b(base)),
        latch_stands(cells, base),
        latch_only(cells, base),
        k > 0,
        forall|i: int| 0 <= i < w.len() ==> wire_at(base, #[trigger] w[i]) == k,
        forall|p: Pos| wire_at(base, p) == k ==> #[trigger] w.contains(p),
        (k == 3 && q == torch_at(base)) || (k == 4 && q == forth_repeater(base)) || (k == 5 && q == torch_at(
            latch_b(base),
        )) || (k == 6 && q == back_repeater(base)),
    ensures
        wire_alone(cells, w, q),
{
    reveal(wire_alone);
    assert forall|i: int| 0 <= i < w.len() implies driven_only_by(cells, #[trigger] w[i], set![q])
        && fed_only_from(cells, w[i], w.to_set()) by {
        let p = w[i];
        assert forall|r: Pos| #[trigger] is_component(cells, r) implies ({
            &&& ends_of(block_at(cells, r), r).contains(p) ==> set![q].contains(r)
            &&& block_at(cells, target_of(block_at(cells, r), r)) is Solid ==> !around(
                target_of(block_at(cells, r), r),
            ).contains(p)
        }) by {
            lemma_part_drives(cells, base, r);
        }
        assert forall|m: Pos, d: Dir| #[trigger] link(cells, m, d) == Some(p) implies w.to_set().contains(m) by {
            lemma_same_wire(cells, base, m, d, p);
            assert(w.contains(m));
        }
    }
}

/// A cell of a latch by itself stands alone.
proof fn lemma_cell_by_itself(cells: Map<Pos, Block>, base: Pos, at: Pos, k: nat)
    requires
        in_world(base),
        in_world(latch_b(base)),
        latch_stands(cells, base),
        latch_only(cells, base),
        (at == base && k == 2) || (at == latch_b(base) && k == 3),
    ensures
        cell_alone(cells, at, k),
{
    let net: int = k - 1;
    assert forall|j: int| 0 <= j < pad_width(k) implies driven_only_by(
        cells,
        #[trigger] pad_at(at, j),
        cell_repeaters(at, k),
    ) && fed_only_from(cells, pad_at(at, j), pad_cells(at, k)) by {
        let p = pad_at(at, j);
        assert(wire_at(base, p) == net);
        assert forall|r: Pos| #[trigger] is_component(cells, r) implies ({
            &&& ends_of(block_at(cells, r), r).contains(p) ==> cell_repeaters(at, k).contains(r)
            &&& block_at(cells, target_of(block_at(cells, r), r)) is Solid ==> !around(
                target_of(block_at(cells, r), r),
            ).contains(p)
        }) by {
            lemma_part_drives(cells, base, r);
        }
        assert forall|m: Pos, d: Dir| #[trigger] link(cells, m, d) == Some(p) implies pad_cells(at, k).contains(
            m,
        ) by {
            lemma_same_wire(cells, base, m, d, p);
            assert(m == pad_at(at, m.0 - at.0));
        }
    }
    assert forall|d: Dir| !is_dust(block_at(cells, #[trigger] beside(at, d))) by {
        assert(wire_at(base, beside(at, d)) == 0);
    }
    assert forall|r: Pos| #[trigger] is_component(cells, r) implies target_of(block_at(cells, r), r) != at by {
        lemma_part_drives(cells, base, r);
    }
    let o = nor_out(at);
    assert(wire_at(base, o) == if k == 2 {
        3int
    } else {
        5
    });
    assert forall|r: Pos| #[trigger] is_component(cells, r) implies ({
        &&& ends_of(block_at(cells, r), r).contains(o) ==> set![torch_at(at)].contains(r)
        &&& block_at(cells, target_of(block_at(cells, r), r)) is Solid ==> !around(
            target_of(block_at(cells, r), r),
        ).contains(o)
    }) by {
        lemma_part_drives(cells, base, r);
    }
}

/// A latch stands alone where all dust and all components are its own.
pub proof fn lemma_latch_by_itself(cells: Map<Pos, Block>, base: Pos)
    requires
        in_world(base),
        in_world(latch_b(base)),
        latch_stands(cells, base),
        latch_only(cells, base),
    ensures
        latch_alone(cells, base),
{
    lemma_cell_by_itself(cells, base, base, 2);
    lemma_cell_by_itself(cells, base, latch_b(base), 3);
    lemma_wire_cells(base);
    lemma_wire_by_itself(cells, base, forth_out(base), 3, torch_at(base));
    lemma_wire_by_itself(cells, base, forth_in(base), 4, forth_repeater(base));
    lemma_wire_by_itself(cells, base, back_out(base), 5, torch_at(latch_b(base)));
    lemma_wire_by_itself(cells, base, back_in(base), 6, back_repeater(base));
}

/// The cells of each wire.
proof fn lemma_wire_cells(base: Pos)
    requires
        in_world(base),
        in_world(latch_b(base)),
    ensures
        forall|i: int| 0 <= i < 9 ==> wire_at(base, #[trigger] forth_out(base)[i]) == 3,
        forall|p: Pos| wire_at(base, p) == 3 ==> #[trigger] forth_out(base).contains(p),
        forall|i: int| 0 <= i < 1 ==> wire_at(base, #[trigger] forth_in(base)[i]) == 4,
        forall|p: Pos| wire_at(base, p) == 4 ==> #[trigger] forth_in(base).contains(p),
        forall|i: int| 0 <= i < 13 ==> wire_at(base, #[trigger] back_out(base)[i]) == 5,
        forall|p: Pos| wire_at(base, p) == 5 ==> #[trigger] back_out(base).contains(p),
        forall|i: int| 0 <= i < 13 ==> wire_at(base, #[trigger] back_in(base)[i]) == 6,
        forall|p: Pos| wire_at(base, p) == 6 ==> #[trigger] back_in(base).contains(p),
{
    assert forall|p: Pos| wire_at(base, p) == 3 implies #[trigger] forth_out(base).contains(p) by {
        let i: int = if p.2 == base.2 + 2 {
            0
        } else if p.2 == base.2 + 3 {
            p.0 - base.0 + 1
        } else {
            8
        };
        assert(forth_out(base)[i] == p);
    }
    assert forall|p: Pos| wire_at(base, p) == 4 implies #[trigger] forth_in(base).contains(p) by {
        assert(forth_in(base)[0] == p);
    }
    assert forall|p: Pos| wire_at(base, p) == 5 implies #[trigger] back_out(base).contains(p) by {
        let i: int = if p.1 == base.1 {
            0
        } else if p.2 == base.2 + 11 {
            7 - (p.0 - base.0)
        } else {
            21 - (p.2 - base.2)
        };
        assert(back_out(base)[i] == p);
    }
    assert forall|p: Pos| wire_at(base, p) == 6 implies #[trigger] back_in(base).contains(p) by {
        let i: int = if p.0 == base.0 - 3 {
            7 - (p.2 - base.2)
        } else {
            p.0 - base.0 + 12
        };
        assert(back_in(base)[i] == p);
    }
}

} // verus!
