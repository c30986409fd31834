//! What the cells compute: from blocks to gates.
use crate::redstone::{
    active, around, at_rest, dust_level, ends_of, is_torch, lemma_level_positive,
    lemma_reached_dust, lemma_reached_further, link, on, powered, powers, reached, repeater_reads,
    seeded, strong, support_of, target_of, weak, Circuit,
};
use crate::steps::{built, Step};
use crate::tech::{
    in_world, is_refresh, moved, nor_out, nor_pad, nor_row, nor_steps, nor_torch, pad_block,
};
use crate::world::{
    above, all_interior, below, beside, block_at, interior, is_dust, opposite_of, shape_at,
    Block, Dir, Pos,
};
use vstd::prelude::*;

verus! {

// --- wires -----------------------------------------------------------------------------------

/// What stands at `q` can put out power.
pub open spec fn is_component(cells: Map<Pos, Block>, q: Pos) -> bool {
    let b = block_at(cells, q);
    is_torch(b) || b is Repeater || b is Lever
}

/// A repeater that reads from `facing`, in any state.
pub open spec fn is_repeater(b: Block, facing: Dir) -> bool {
    match b {
        Block::Repeater { facing: f, .. } => f == facing,
        _ => false,
    }
}

/// No component but those in `own` drives dust at `p`, and no block that a component
/// powers strongly touches it.
pub open spec fn driven_only_by(cells: Map<Pos, Block>, p: Pos, own: Set<Pos>) -> bool {
    forall|q: Pos| #[trigger] is_component(cells, q) ==> {
        &&& ends_of(block_at(cells, q), q).contains(p) ==> own.contains(q)
        &&& block_at(cells, target_of(block_at(cells, q), q)) is Solid ==> !around(
            target_of(block_at(cells, q), q),
        ).contains(p)
    }
}

/// No dust but that of `wire` conducts into `p`.
pub open spec fn fed_only_from(cells: Map<Pos, Block>, p: Pos, wire: Set<Pos>) -> bool {
    forall|m: Pos, d: Dir| #[trigger] link(cells, m, d) == Some(p) ==> wire.contains(m)
}

/// What drives dust that is driven by `own` alone.
pub proof fn lemma_driver(cells: Map<Pos, Block>, c: Circuit, p: Pos, own: Set<Pos>) -> (q: Pos)
    requires
        driven_only_by(cells, p, own),
        seeded(cells, c, p),
    ensures
        own.contains(q),
        active(cells, c, q),
        ends_of(block_at(cells, q), q).contains(p),
{
    if exists|q: Pos| #[trigger] active(cells, c, q) && ends_of(block_at(cells, q), q).contains(p) {
        let q = choose|q: Pos| #[trigger] active(cells, c, q) && ends_of(block_at(cells, q), q).contains(p);
        assert(is_component(cells, q));
        q
    } else {
        let b = choose|b: Pos| #[trigger] strong(cells, c, b) && around(b).contains(p);
        let q = choose|q: Pos| #[trigger] active(cells, c, q) && target_of(block_at(cells, q), q) == b;
        assert(is_component(cells, q));
        q
    }
}

/// Dust on one level conducts into the dust beside it.
pub proof fn lemma_level_link(cells: Map<Pos, Block>, p: Pos, d: Dir)
    requires
        is_dust(block_at(cells, p)),
        is_dust(block_at(cells, beside(p, d))),
    ensures
        link(cells, p, d) == Some(beside(p, d)),
{
}

// --- the NOR cell ----------------------------------------------------------------------------

/// Column `j` of a cell's pad.
pub open spec fn pad_at(base: Pos, j: int) -> Pos {
    moved(base, j, 1, 0)
}

/// The repeater of input `i`.
pub open spec fn input_at(base: Pos, i: int) -> Pos {
    moved(base, 2 * i, 1, -1)
}

/// The torch.
pub open spec fn torch_at(base: Pos) -> Pos {
    moved(base, 0, 0, 1)
}

/// How many columns the pad of a cell with `k` inputs has.
pub open spec fn pad_width(k: nat) -> int {
    2 * k - 1
}

/// The blocks of a NOR cell with `k` inputs stand at `base`, in any state.
pub open spec fn cell_stands(cells: Map<Pos, Block>, base: Pos, k: nat) -> bool {
    &&& forall|i: int|
        0 <= i < k ==> is_repeater(block_at(cells, #[trigger] input_at(base, i)), Dir::North)
    &&& forall|i: int| 0 <= i < k ==> block_at(cells, #[trigger] moved(base, 2 * i, 0, -1)) is Solid
    &&& forall|j: int|
        0 <= j < pad_width(k) ==> if is_refresh(j) {
            is_repeater(block_at(cells, #[trigger] pad_at(base, j)), Dir::East)
        } else {
            is_dust(block_at(cells, pad_at(base, j)))
        }
    &&& forall|j: int| 0 <= j < pad_width(k) ==> block_at(cells, #[trigger] moved(base, j, 0, 0)) is Solid
    &&& forall|j: int| 0 <= j < pad_width(k) ==> block_at(cells, #[trigger] moved(base, j, 2, 0)) is Solid
    &&& match block_at(cells, torch_at(base)) {
        Block::WallTorch { facing, .. } => facing == Dir::South,
        _ => false,
    }
    &&& block_at(cells, moved(base, 0, -1, 2)) is Solid
    &&& is_dust(block_at(cells, nor_out(base)))
}

/// The repeaters of a cell: those of its inputs, and those that refresh its pad.
pub open spec fn cell_repeaters(base: Pos, k: nat) -> Set<Pos> {
    Set::new(
        |q: Pos|
            {
                ||| exists|i: int| 0 <= i < k && q == #[trigger] input_at(base, i)
                ||| exists|j: int| 0 <= j < pad_width(k) && is_refresh(j) && q == #[trigger] pad_at(base, j)
            },
    )
}

/// The cells of the pad.
pub open spec fn pad_cells(base: Pos, k: nat) -> Set<Pos> {
    Set::new(|q: Pos| exists|j: int| 0 <= j < pad_width(k) && q == #[trigger] pad_at(base, j))
}

/// Nothing else drives or joins the pad, powers the support, or drives the output of a
/// NOR cell.
pub open spec fn cell_alone(cells: Map<Pos, Block>, base: Pos, k: nat) -> bool {
    &&& forall|j: int|
        0 <= j < pad_width(k) ==> driven_only_by(
            cells,
            #[trigger] pad_at(base, j),
            cell_repeaters(base, k),
        ) && fed_only_from(cells, pad_at(base, j), pad_cells(base, k))
    &&& forall|d: Dir| !is_dust(block_at(cells, #[trigger] beside(base, d)))
    &&& forall|q: Pos|
        #[trigger] is_component(cells, q) ==> target_of(block_at(cells, q), q) != base
    &&& driven_only_by(cells, nor_out(base), set![torch_at(base)])
}

/// One of the cell's inputs is on.
pub open spec fn any_on(c: Circuit, base: Pos, k: nat) -> bool {
    exists|i: int| 0 <= i < k && on(c.repeater_powered, #[trigger] input_at(base, i))
}

/// The component at `p`, if there is one, agrees with the power around it.
pub open spec fn settled(cells: Map<Pos, Block>, c: Circuit, p: Pos) -> bool {
    match block_at(cells, p) {
        Block::Repeater { facing, .. } => on(c.repeater_powered, p) == repeater_reads(cells, c, p, facing),
        b => is_torch(b) ==> on(c.torch_lit, p) == !powered(cells, c, support_of(b, p)),
    }
}

/// The repeaters that refresh the pad have settled.
pub open spec fn pad_settled(cells: Map<Pos, Block>, c: Circuit, base: Pos, k: nat) -> bool {
    forall|j: int| 0 <= j < pad_width(k) && is_refresh(j) ==> settled(cells, c, #[trigger] pad_at(base, j))
}

/// The size that a cell may have.
pub open spec fn cell_fits(base: Pos, k: nat) -> bool {
    0 < k <= 0x0400_0000 && in_world(base)
}

/// Dust of the pad conducts along its row.
proof fn lemma_pad_link(cells: Map<Pos, Block>, base: Pos, k: nat, i: int, j: int, d: Dir)
    requires
        cell_fits(base, k),
        0 <= i < pad_width(k),
        0 <= j < pad_width(k),
        link(cells, pad_at(base, i), d) == Some(pad_at(base, j)),
    ensures
        i == j - 1 || i == j + 1,
{
    let m = pad_at(base, i);
    let n = beside(m, d);
    assert(n.1 == base.1 + 1);
    assert(above(n).1 == base.1 + 2 && below(n).1 == base.1);
    assert(pad_at(base, j) == n);
}

/// A repeater that refreshes the pad carries what stands in the column after it to the
/// column before it.
proof fn lemma_refresh(cells: Map<Pos, Block>, c: Circuit, base: Pos, k: nat, m: int)
    requires
        cell_fits(base, k),
        cell_stands(cells, base, k),
        pad_settled(cells, c, base, k),
        0 <= m < pad_width(k),
        is_refresh(m),
    ensures
        1 <= m < pad_width(k) - 1,
        ends_of(block_at(cells, pad_at(base, m)), pad_at(base, m)) =~= seq![pad_at(base, m - 1)],
        active(cells, c, pad_at(base, m)) <==> dust_level(cells, c, pad_at(base, m + 1)) > 0,
{
    let q = pad_at(base, m);
    assert(is_repeater(block_at(cells, pad_at(base, m)), Dir::East));
    assert(!is_refresh(m + 1));
    assert(beside(q, Dir::East) == pad_at(base, m + 1));
    assert(beside(q, Dir::West) == pad_at(base, m - 1));
    assert(is_dust(block_at(cells, pad_at(base, m + 1))));
}

/// A cell that stands alone, its pad settled and its inputs off.
#[verifier::opaque]
spec fn quiet(cells: Map<Pos, Block>, c: Circuit, base: Pos, k: nat) -> bool {
    &&& cell_fits(base, k)
    &&& cell_stands(cells, base, k)
    &&& cell_alone(cells, base, k)
    &&& pad_settled(cells, c, base, k)
    &&& !any_on(c, base, k)
}

/// What drives a column of the pad, while no input does, is the repeater after it.
proof fn lemma_pad_driven(cells: Map<Pos, Block>, c: Circuit, base: Pos, k: nat, j: int)
    requires
        quiet(cells, c, base, k),
        0 <= j < pad_width(k),
        seeded(cells, c, pad_at(base, j)),
    ensures
        is_refresh(j + 1),
        j + 2 < pad_width(k),
        dust_level(cells, c, pad_at(base, j + 2)) > 0,
{
    reveal(quiet);
    let q = lemma_driver(cells, c, pad_at(base, j), cell_repeaters(base, k));
    if exists|i: int| 0 <= i < k && q == #[trigger] input_at(base, i) {
        let i = choose|i: int| 0 <= i < k && q == #[trigger] input_at(base, i);
        assert(is_repeater(block_at(cells, input_at(base, i)), Dir::North));
    } else {
        let m = choose|m: int|
            0 <= m < pad_width(k) && is_refresh(m) && q == #[trigger] pad_at(base, m);
        lemma_refresh(cells, c, base, k, m);
        assert(j == m - 1);
    }
}

/// Columns without a repeater that lie side by side lie between the same repeaters.
proof fn lemma_same_run(i: int, j: int)
    requires
        i == j - 1 || i == j + 1,
        !is_refresh(i),
        !is_refresh(j),
        0 <= i,
        0 <= j,
    ensures
        i / 14 == j / 14,
{
}

/// A signal comes to a column of the pad, over a link, from a column of the same run.
proof fn lemma_pad_before(
    cells: Map<Pos, Block>,
    c: Circuit,
    base: Pos,
    k: nat,
    j: int,
    n: nat,
) -> (i: int)
    requires
        quiet(cells, c, base, k),
        0 <= j < pad_width(k),
        0 < n,
        reached(cells, c, pad_at(base, j), n),
        !reached(cells, c, pad_at(base, j), (n - 1) as nat),
    ensures
        0 <= i < pad_width(k),
        i / 14 == j / 14,
        reached(cells, c, pad_at(base, i), (n - 1) as nat),
{
    reveal(quiet);
    let p = pad_at(base, j);
    let (m, d) = choose|m: Pos, d: Dir| #[trigger]
        link(cells, m, d) == Some(p) && reached(cells, c, m, (n - 1) as nat);
    assert(pad_cells(base, k).contains(m));
    let i = choose|i: int| 0 <= i < pad_width(k) && m == #[trigger] pad_at(base, i);
    lemma_reached_dust(cells, c, m, (n - 1) as nat);
    lemma_reached_dust(cells, c, p, n);
    lemma_pad_link(cells, base, k, i, j, d);
    assert(is_dust(block_at(cells, pad_at(base, i))) && is_dust(block_at(cells, pad_at(base, j))));
    lemma_same_run(i, j);
    i
}

/// No signal comes from nothing: while no input is on, the pad is dark.
proof fn lemma_pad_dark(cells: Map<Pos, Block>, c: Circuit, base: Pos, k: nat, j: int, n: nat)
    requires
        quiet(cells, c, base, k),
        0 <= j < pad_width(k),
    ensures
        !reached(cells, c, pad_at(base, j), n),
    decreases pad_width(k) - j / 14, n,
{
    let p = pad_at(base, j);
    if reached(cells, c, p, n) {
        if n == 0 {
            lemma_pad_driven(cells, c, base, k, j);
            lemma_level_positive(cells, c, pad_at(base, j + 2), 0);
            lemma_pad_dark(cells, c, base, k, j + 2, 14);
        } else if reached(cells, c, p, (n - 1) as nat) {
            lemma_pad_dark(cells, c, base, k, j, (n - 1) as nat);
        } else {
            let i = lemma_pad_before(cells, c, base, k, j, n);
            lemma_pad_dark(cells, c, base, k, i, (n - 1) as nat);
        }
    }
}

/// A signal runs along the pad, as far as the next repeater.
proof fn lemma_pad_runs(cells: Map<Pos, Block>, c: Circuit, base: Pos, k: nat, j: int, t: nat)
    requires
        cell_fits(base, k),
        cell_stands(cells, base, k),
        0 <= j < pad_width(k),
        !is_refresh(j),
        t <= j % 14,
        seeded(cells, c, pad_at(base, j)),
    ensures
        reached(cells, c, pad_at(base, j - t), t),
    decreases t,
{
    if t > 0 {
        lemma_pad_runs(cells, c, base, k, j, (t - 1) as nat);
        let m = pad_at(base, j - t + 1);
        let p = pad_at(base, j - t);
        assert(!is_refresh(j - t + 1) && !is_refresh(j - t));
        assert(beside(m, Dir::West) == p);
        lemma_level_link(cells, m, Dir::West);
        assert(link(cells, m, Dir::West) == Some(p) && reached(cells, c, m, (t - 1) as nat));
    }
}

/// A signal on the pad arrives at its first column.
proof fn lemma_pad_arrives(cells: Map<Pos, Block>, c: Circuit, base: Pos, k: nat, j: int)
    requires
        cell_fits(base, k),
        cell_stands(cells, base, k),
        pad_settled(cells, c, base, k),
        0 <= j < pad_width(k),
        !is_refresh(j),
        seeded(cells, c, pad_at(base, j)),
    ensures
        dust_level(cells, c, pad_at(base, 0)) > 0,
    decreases j,
{
    let t = (j % 14) as nat;
    lemma_pad_runs(cells, c, base, k, j, t);
    let s = j - t;
    lemma_reached_further(cells, c, pad_at(base, s), t, 14);
    lemma_level_positive(cells, c, pad_at(base, s), 0);
    if s > 0 {
        let q = pad_at(base, s - 1);
        assert(is_refresh(s - 1));
        lemma_refresh(cells, c, base, k, s - 1);
        assert(active(cells, c, q));
        assert(!is_refresh(s - 2));
        assert(ends_of(block_at(cells, q), q)[0] == pad_at(base, s - 2));
        lemma_pad_arrives(cells, c, base, k, s - 2);
    }
}

/// The support of the torch is powered by the pad above it, and by nothing else.
proof fn lemma_support(cells: Map<Pos, Block>, c: Circuit, base: Pos, k: nat)
    requires
        cell_fits(base, k),
        all_interior(cells),
        cell_stands(cells, base, k),
        cell_alone(cells, base, k),
    ensures
        powered(cells, c, base) <==> dust_level(cells, c, pad_at(base, 0)) > 0,
{
    let p = pad_at(base, 0);
    assert(moved(base, 0, 0, 0) == base);
    assert(block_at(cells, moved(base, 0, 0, 0)) is Solid);
    assert(below(p) == base);
    if strong(cells, c, base) {
        let q = choose|q: Pos| #[trigger] active(cells, c, q) && target_of(block_at(cells, q), q) == base;
        assert(is_component(cells, q));
    }
    if weak(cells, c, base) {
        let q = choose|q: Pos| #[trigger] dust_level(cells, c, q) > 0 && powers(cells, q, base);
        lemma_level_positive(cells, c, q, 0);
        lemma_reached_dust(cells, c, q, 14);
        assert(cells.contains_key(q) && interior(q));
        if base != below(q) {
            let d = choose|d: Dir| #[trigger]
                crate::redstone::points(shape_at(cells, q), d) && base == beside(q, d);
            assert(q == beside(base, opposite_of(d)));
        } else {
            assert(q == p);
        }
    }
    if dust_level(cells, c, p) > 0 {
        assert(powers(cells, p, base));
    }
}

/// The torch's support is powered exactly while an input is on.
pub proof fn lemma_cell_hears(cells: Map<Pos, Block>, c: Circuit, base: Pos, k: nat)
    requires
        cell_fits(base, k),
        all_interior(cells),
        cell_stands(cells, base, k),
        cell_alone(cells, base, k),
        pad_settled(cells, c, base, k),
    ensures
        block_at(cells, torch_at(base)) is WallTorch,
        support_of(block_at(cells, torch_at(base)), torch_at(base)) == base,
        powered(cells, c, base) <==> any_on(c, base, k),
{
    lemma_support(cells, c, base, k);
    if any_on(c, base, k) {
        let i = choose|i: int| 0 <= i < k && on(c.repeater_powered, #[trigger] input_at(base, i));
        let q = input_at(base, i);
        assert(is_repeater(block_at(cells, input_at(base, i)), Dir::North));
        assert(active(cells, c, q));
        assert(!is_refresh(2 * i));
        assert(is_dust(block_at(cells, pad_at(base, 2 * i))));
        assert(beside(q, Dir::South) == pad_at(base, 2 * i));
        assert(ends_of(block_at(cells, q), q)[0] == pad_at(base, 2 * i));
        lemma_pad_arrives(cells, c, base, k, 2 * i);
    } else {
        assert(quiet(cells, c, base, k)) by {
            reveal(quiet);
        }
        lemma_pad_dark(cells, c, base, k, 0, 14);
        lemma_level_positive(cells, c, pad_at(base, 0), 0);
    }
}

/// A NOR cell puts out the NOR of its inputs, however many they are: in a circuit at
/// rest its torch is lit exactly when none of its inputs reads a signal. A lit torch
/// puts its output at full strength; a dark one leaves it undriven, and dark too unless
/// other wire conducts into it.
pub proof fn lemma_nor_cell(cells: Map<Pos, Block>, c: Circuit, base: Pos, k: nat)
    requires
        cell_fits(base, k),
        all_interior(cells),
        cell_stands(cells, base, k),
        cell_alone(cells, base, k),
        at_rest(cells, c),
    ensures
        on(c.torch_lit, torch_at(base)) <==> forall|i: int|
            0 <= i < k ==> !repeater_reads(cells, c, #[trigger] input_at(base, i), Dir::North),
        on(c.torch_lit, torch_at(base)) ==> dust_level(cells, c, nor_out(base)) == 15,
        !on(c.torch_lit, torch_at(base)) ==> !seeded(cells, c, nor_out(base)),
        !on(c.torch_lit, torch_at(base)) && fed_only_from(cells, nor_out(base), Set::empty()) ==> dust_level(
            cells,
            c,
            nor_out(base),
        ) == 0,
{
    let t = torch_at(base);
    let o = nor_out(base);
    lemma_cell_hears(cells, c, base, k);
    assert forall|i: int| 0 <= i < k implies on(c.repeater_powered, #[trigger] input_at(base, i))
        == repeater_reads(cells, c, input_at(base, i), Dir::North) by {
        assert(is_repeater(block_at(cells, input_at(base, i)), Dir::North));
    }
    if on(c.torch_lit, t) {
        assert(active(cells, c, t));
        assert(beside(t, Dir::South) == o);
        assert(ends_of(block_at(cells, t), t)[1] == o);
        assert(seeded(cells, c, o));
    } else {
        if seeded(cells, c, o) {
            let q = lemma_driver(cells, c, o, set![t]);
            assert(q == t);
        }
        if fed_only_from(cells, o, Set::empty()) {
            lemma_unfed(cells, c, o, 14);
            lemma_level_positive(cells, c, o, 0);
        }
    }
}

/// Dust that nothing drives and nothing conducts into is dark.
proof fn lemma_unfed(cells: Map<Pos, Block>, c: Circuit, p: Pos, n: nat)
    requires
        !seeded(cells, c, p),
        fed_only_from(cells, p, Set::empty()),
    ensures
        !reached(cells, c, p, n),
    decreases n,
{
    if n > 0 {
        lemma_unfed(cells, c, p, (n - 1) as nat);
        if reached(cells, c, p, n) {
            let (m, d) = choose|m: Pos, d: Dir| #[trigger]
                link(cells, m, d) == Some(p) && reached(cells, c, m, (n - 1) as nat);
            assert(Set::<Pos>::empty().contains(m));
        }
    }
}

// --- stamped cells stand -----------------------------------------------------------------------

/// What a construction has placed stands.
pub proof fn lemma_placed(cells: Map<Pos, Block>, steps: Seq<Step>, i: int)
    requires
        0 <= i < steps.len(),
        steps[i] is Put,
        steps[i]->Put_1 != Block::Air,
        built(cells, steps).1 is None,
    ensures
        block_at(built(cells, steps).0, steps[i]->Put_0) == steps[i]->Put_1,
    decreases steps.len(),
{
    let before = steps.drop_last();
    if i < before.len() {
        assert(before[i] == steps[i]);
        lemma_placed(cells, before, i);
    }
}

proof fn lemma_row_at(base: Pos, n: nat, i: int)
    requires
        0 <= i < n,
    ensures
        nor_row(base, n).len() == 2 * n,
        nor_row(base, n)[2 * i] == Step::Put(
            moved(base, 2 * i, 0, -1),
            Block::Solid(crate::world::Material::Wire),
        ),
        nor_row(base, n)[2 * i + 1] == Step::Put(
            input_at(base, i),
            crate::tech::repeater(Dir::North),
        ),
    decreases n,
{
    reveal_with_fuel(nor_row, 2);
    if n > 1 {
        if i < n - 1 {
            lemma_row_at(base, (n - 1) as nat, i);
        } else {
            lemma_row_at(base, (n - 1) as nat, 0);
        }
    }
}

proof fn lemma_pad_at(base: Pos, n: nat, j: int)
    requires
        0 <= j < n,
    ensures
        nor_pad(base, n).len() == 3 * n,
        nor_pad(base, n)[3 * j] == Step::Put(
            moved(base, j, 0, 0),
            Block::Solid(crate::world::Material::Gate),
        ),
        nor_pad(base, n)[3 * j + 1] == Step::Put(pad_at(base, j), pad_block(j)),
        nor_pad(base, n)[3 * j + 2] == Step::Put(
            moved(base, j, 2, 0),
            Block::Solid(crate::world::Material::Shield),
        ),
    decreases n,
{
    reveal_with_fuel(nor_pad, 2);
    if n > 1 {
        if j < n - 1 {
            lemma_pad_at(base, (n - 1) as nat, j);
        } else {
            lemma_pad_at(base, (n - 1) as nat, 0);
        }
    }
}

/// A NOR cell that has been stamped stands.
pub proof fn lemma_stamped_stands(cells: Map<Pos, Block>, base: Pos, k: nat)
    requires
        0 < k,
        built(cells, nor_steps(base, k)).1 is None,
    ensures
        cell_stands(built(cells, nor_steps(base, k)).0, base, k),
{
    let steps = nor_steps(base, k);
    let after = built(cells, steps).0;
    let w = (2 * (k - 1) + 1) as nat;
    let row = nor_row(base, k);
    let pad = nor_pad(base, w);
    lemma_row_at(base, k, 0);
    lemma_pad_at(base, w, 0);
    assert forall|i: int| 0 <= i < k implies is_repeater(
        block_at(after, #[trigger] input_at(base, i)),
        Dir::North,
    ) by {
        lemma_row_at(base, k, i);
        assert(steps[2 * i + 1] == row[2 * i + 1]);
        lemma_placed(cells, steps, 2 * i + 1);
    }
    assert forall|i: int| 0 <= i < k implies block_at(after, #[trigger] moved(base, 2 * i, 0, -1)) is Solid by {
        lemma_row_at(base, k, i);
        assert(steps[2 * i] == row[2 * i]);
        lemma_placed(cells, steps, 2 * i);
    }
    assert forall|j: int| 0 <= j < pad_width(k) implies block_at(after, #[trigger] pad_at(base, j))
        == pad_block(j) by {
        lemma_pad_at(base, w, j);
        assert(steps[2 * k + 3 * j + 1] == pad[3 * j + 1]);
        lemma_placed(cells, steps, 2 * k + 3 * j + 1);
    }
    assert forall|j: int| 0 <= j < pad_width(k) implies block_at(after, #[trigger] moved(base, j, 0, 0)) is Solid by {
        lemma_pad_at(base, w, j);
        assert(steps[2 * k + 3 * j] == pad[3 * j]);
        lemma_placed(cells, steps, 2 * k + 3 * j);
    }
    assert forall|j: int| 0 <= j < pad_width(k) implies block_at(after, #[trigger] moved(base, j, 2, 0)) is Solid by {
        lemma_pad_at(base, w, j);
        assert(steps[2 * k + 3 * j + 2] == pad[3 * j + 2]);
        lemma_placed(cells, steps, 2 * k + 3 * j + 2);
    }
    let at: int = (2 * k + 3 * w) as int;
    assert(steps[at] == nor_torch(base)[0]);
    assert(steps[at + 1] == nor_torch(base)[1]);
    assert(steps[at + 2] == nor_torch(base)[2]);
    lemma_placed(cells, steps, at);
    lemma_placed(cells, steps, at + 1);
    lemma_placed(cells, steps, at + 2);
}

// --- a cell by itself --------------------------------------------------------------------------

/// A position of a NOR cell.
pub open spec fn cell_has(base: Pos, k: nat, q: Pos) -> bool {
    ||| exists|i: int| 0 <= i < k && (q == #[trigger] input_at(base, i) || q == moved(base, 2 * i, 0, -1))
    ||| exists|j: int|
        0 <= j < pad_width(k) && (q == #[trigger] pad_at(base, j) || q == moved(base, j, 0, 0) || q == moved(
            base,
            j,
            2,
            0,
        ))
    ||| q == torch_at(base)
    ||| q == moved(base, 0, -1, 2)
    ||| q == nor_out(base)
}

/// What is there after building from nothing was placed.
proof fn lemma_built_from(steps: Seq<Step>, q: Pos) -> (i: int)
    requires
        built(Map::empty(), steps).0.contains_key(q),
    ensures
        0 <= i < steps.len(),
        steps[i] is Put,
        steps[i]->Put_0 == q,
    decreases steps.len(),
{
    let before = built(Map::empty(), steps.drop_last());
    if before.0.contains_key(q) {
        let i = lemma_built_from(steps.drop_last(), q);
        assert(steps.drop_last()[i] == steps[i]);
        i
    } else {
        steps.len() - 1
    }
}

/// A cell that was stamped into nothing is all there is.
proof fn lemma_cell_only(base: Pos, k: nat, q: Pos)
    requires
        0 < k,
        built(Map::empty(), nor_steps(base, k)).0.contains_key(q),
    ensures
        cell_has(base, k, q),
{
    let steps = nor_steps(base, k);
    let w = (2 * (k - 1) + 1) as nat;
    let t = lemma_built_from(steps, q);
    lemma_row_at(base, k, 0);
    lemma_pad_at(base, w, 0);
    if t < 2 * k {
        let i = t / 2;
        lemma_row_at(base, k, i);
        assert(steps[t] == nor_row(base, k)[t]);
        assert(t == 2 * i || t == 2 * i + 1);
        assert(q == input_at(base, i) || q == moved(base, 2 * i, 0, -1));
    } else if t < 2 * k + 3 * w {
        let s = t - 2 * k;
        let j = s / 3;
        lemma_pad_at(base, w, j);
        assert(steps[t] == nor_pad(base, w)[s]);
        assert(s == 3 * j || s == 3 * j + 1 || s == 3 * j + 2);
        assert(q == pad_at(base, j) || q == moved(base, j, 0, 0) || q == moved(base, j, 2, 0));
    } else {
        assert(steps[t] == nor_torch(base)[t - 2 * k - 3 * w]);
    }
}

/// What a component of a cell by itself drives: its pad or its output, and no block.
proof fn lemma_only_component(cells: Map<Pos, Block>, base: Pos, k: nat, q: Pos)
    requires
        cell_fits(base, k),
        cell_stands(cells, base, k),
        forall|p: Pos| #[trigger] cells.contains_key(p) ==> cell_has(base, k, p),
        is_component(cells, q),
    ensures
        q == torch_at(base) || (cell_repeaters(base, k).contains(q) && exists|j: int|
            0 <= j < pad_width(k) && ends_of(block_at(cells, q), q) =~= seq![#[trigger] pad_at(base, j)]),
        !(block_at(cells, target_of(block_at(cells, q), q)) is Solid),
        target_of(block_at(cells, q), q) != base,
{
    assert(cells.contains_key(q));
    if q == torch_at(base) {
        assert(target_of(block_at(cells, q), q) == moved(base, 0, 1, 1));
        assert(!cells.contains_key(moved(base, 0, 1, 1)));
    } else if exists|i: int| 0 <= i < k && q == #[trigger] input_at(base, i) {
        let i = choose|i: int| 0 <= i < k && q == #[trigger] input_at(base, i);
        assert(is_repeater(block_at(cells, input_at(base, i)), Dir::North));
        assert(beside(q, Dir::South) == pad_at(base, 2 * i));
        assert(!is_refresh(2 * i));
        assert(is_dust(block_at(cells, pad_at(base, 2 * i))));
        assert(ends_of(block_at(cells, q), q) =~= seq![pad_at(base, 2 * i)]);
    } else {
        lemma_only_refresh(cells, base, k, q);
        let m = choose|m: int| 0 <= m < pad_width(k) && is_refresh(m) && q == #[trigger] pad_at(base, m);
        assert(is_repeater(block_at(cells, pad_at(base, m)), Dir::East));
        assert(!is_refresh(m - 1));
        assert(is_dust(block_at(cells, pad_at(base, m - 1))));
        assert(beside(q, Dir::West) == pad_at(base, m - 1));
        assert(ends_of(block_at(cells, q), q) =~= seq![pad_at(base, m - 1)]);
    }
}

proof fn lemma_only_refresh(cells: Map<Pos, Block>, base: Pos, k: nat, q: Pos)
    requires
        cell_fits(base, k),
        cell_stands(cells, base, k),
        cell_has(base, k, q),
        is_component(cells, q),
        q != torch_at(base),
        !exists|i: int| 0 <= i < k && q == #[trigger] input_at(base, i),
    ensures
        exists|m: int| 0 <= m < pad_width(k) && is_refresh(m) && q == #[trigger] pad_at(base, m),
{
    if exists|i: int| 0 <= i < k && (#[trigger] input_at(base, i) == q || moved(base, 2 * i, 0, -1) == q) {
        let i = choose|i: int| 0 <= i < k && (#[trigger] input_at(base, i) == q || moved(base, 2 * i, 0, -1) == q);
        assert(block_at(cells, moved(base, 2 * i, 0, -1)) is Solid);
    } else if exists|j: int|
        0 <= j < pad_width(k) && (#[trigger] pad_at(base, j) == q || moved(base, j, 0, 0) == q || moved(
            base,
            j,
            2,
            0,
        ) == q) {
        let j = choose|j: int|
            0 <= j < pad_width(k) && (#[trigger] pad_at(base, j) == q || moved(base, j, 0, 0) == q || moved(
                base,
                j,
                2,
                0,
            ) == q);
        assert(block_at(cells, moved(base, j, 0, 0)) is Solid);
        assert(block_at(cells, moved(base, j, 2, 0)) is Solid);
    }
}

/// The dust of a cell by itself: its pad and its output.
proof fn lemma_only_dust(cells: Map<Pos, Block>, base: Pos, k: nat, q: Pos)
    requires
        cell_fits(base, k),
        cell_stands(cells, base, k),
        forall|p: Pos| #[trigger] cells.contains_key(p) ==> cell_has(base, k, p),
        is_dust(block_at(cells, q)),
    ensures
        pad_cells(base, k).contains(q) || q == nor_out(base),
{
    assert(cells.contains_key(q));
    if exists|i: int| 0 <= i < k && (#[trigger] input_at(base, i) == q || moved(base, 2 * i, 0, -1) == q) {
        let i = choose|i: int| 0 <= i < k && (#[trigger] input_at(base, i) == q || moved(base, 2 * i, 0, -1) == q);
        assert(is_repeater(block_at(cells, input_at(base, i)), Dir::North));
        assert(block_at(cells, moved(base, 2 * i, 0, -1)) is Solid);
    } else if exists|j: int|
        0 <= j < pad_width(k) && (#[trigger] pad_at(base, j) == q || moved(base, j, 0, 0) == q || moved(
            base,
            j,
            2,
            0,
        ) == q) {
        let j = choose|j: int|
            0 <= j < pad_width(k) && (#[trigger] pad_at(base, j) == q || moved(base, j, 0, 0) == q || moved(
                base,
                j,
                2,
                0,
            ) == q);
        assert(block_at(cells, moved(base, j, 0, 0)) is Solid);
        assert(block_at(cells, moved(base, j, 2, 0)) is Solid);
    }
}

/// A cell that was stamped into nothing stands alone.
pub proof fn lemma_lone_cell(base: Pos, k: nat)
    requires
        cell_fits(base, k),
        built(Map::empty(), nor_steps(base, k)).1 is None,
    ensures
        cell_stands(built(Map::empty(), nor_steps(base, k)).0, base, k),
        cell_alone(built(Map::empty(), nor_steps(base, k)).0, base, k),
{
    let cells = built(Map::empty(), nor_steps(base, k)).0;
    lemma_stamped_stands(Map::empty(), base, k);
    assert forall|p: Pos| #[trigger] cells.contains_key(p) implies cell_has(base, k, p) by {
        lemma_cell_only(base, k, p);
    }
    assert forall|j: int| 0 <= j < pad_width(k) implies driven_only_by(
        cells,
        #[trigger] pad_at(base, j),
        cell_repeaters(base, k),
    ) && fed_only_from(cells, pad_at(base, j), pad_cells(base, k)) by {
        let p = pad_at(base, j);
        assert forall|q: Pos| #[trigger] is_component(cells, q) implies ({
            &&& ends_of(block_at(cells, q), q).contains(p) ==> cell_repeaters(base, k).contains(q)
            &&& block_at(cells, target_of(block_at(cells, q), q)) is Solid ==> !around(
                target_of(block_at(cells, q), q),
            ).contains(p)
        }) by {
            lemma_only_component(cells, base, k, q);
        }
        assert forall|m: Pos, d: Dir| #[trigger] link(cells, m, d) == Some(p) implies pad_cells(base, k).contains(
            m,
        ) by {
            lemma_only_dust(cells, base, k, m);
        }
    }
    assert forall|d: Dir| !is_dust(block_at(cells, #[trigger] beside(base, d))) by {
        if is_dust(block_at(cells, beside(base, d))) {
            lemma_only_dust(cells, base, k, beside(base, d));
        }
    }
    assert forall|q: Pos| #[trigger] is_component(cells, q) implies target_of(block_at(cells, q), q) != base by {
        lemma_only_component(cells, base, k, q);
    }
    let o = nor_out(base);
    assert forall|q: Pos| #[trigger] is_component(cells, q) implies ({
        &&& ends_of(block_at(cells, q), q).contains(o) ==> set![torch_at(base)].contains(q)
        &&& block_at(cells, target_of(block_at(cells, q), q)) is Solid ==> !around(
            target_of(block_at(cells, q), q),
        ).contains(o)
    }) by {
        lemma_only_component(cells, base, k, q);
    }
}

} // verus!
