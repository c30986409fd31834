//! Constructions stay within range.
use crate::steps::{built, Step};
use crate::tech::{
    along, descent, descent_steps, dust, flight_at, flight_steps, height, latch_b, latch_built,
    latch_started, link_steps, moved, nor_feeds, nor_out, nor_pad, nor_row, nor_steps, nor_torch,
    return_steps, run_block, run_length, run_steps, run_x_steps, run_z_steps, staged_length,
    staged_steps, switched_on, turn_steps, x_dir, z_dir,
};
use crate::world::{Block, Dir, Material, Pos};
use vstd::prelude::*;

verus! {

/// Coordinates of at most `n` either way.
pub open spec fn within(p: Pos, n: int) -> bool {
    -n <= p.0 <= n && -n <= p.1 <= n && -n <= p.2 <= n
}

/// The construction places blocks within `n` only.
pub open spec fn puts_within(steps: Seq<Step>, n: int) -> bool {
    forall|i: int|
        0 <= i < steps.len() ==> match #[trigger] steps[i] {
            Step::Put(p, _) => within(p, n),
            _ => true,
        }
}

/// Every cell is within `n`.
pub open spec fn spans(cells: Map<Pos, Block>, n: int) -> bool {
    forall|p: Pos| #[trigger] cells.contains_key(p) ==> within(p, n)
}

/// A construction within range leaves the cells within range.
pub proof fn lemma_built_spans(cells: Map<Pos, Block>, steps: Seq<Step>, n: int)
    requires
        spans(cells, n),
        puts_within(steps, n),
    ensures
        spans(built(cells, steps).0, n),
    decreases steps.len(),
{
    if steps.len() > 0 {
        let rest = steps.drop_last();
        assert(puts_within(rest, n)) by {
            assert forall|i: int| 0 <= i < rest.len() implies (match #[trigger] rest[i] {
                Step::Put(p, _) => within(p, n),
                _ => true,
            }) by {
                assert(rest[i] == steps[i]);
            }
        }
        lemma_built_spans(cells, rest, n);
        assert(steps[steps.len() - 1] == steps.last());
    }
}

pub proof fn lemma_puts_join(a: Seq<Step>, b: Seq<Step>, n: int)
    requires
        puts_within(a, n),
        puts_within(b, n),
    ensures
        puts_within(a + b, n),
{
    let all = a + b;
    assert forall|i: int| 0 <= i < all.len() implies (match #[trigger] all[i] {
        Step::Put(p, _) => within(p, n),
        _ => true,
    }) by {
        if i < a.len() {
            assert(all[i] == a[i]);
        } else {
            assert(all[i] == b[i - a.len()]);
        }
    }
}

proof fn lemma_row_within(base: Pos, k: nat, n: int)
    requires
        within(base, n - 2 * k - 2),
        n <= 0x5000_0000,
    ensures
        puts_within(nor_row(base, k), n),
    decreases k,
{
    if k > 0 {
        lemma_row_within(base, (k - 1) as nat, n);
    }
}

proof fn lemma_pad_within(base: Pos, k: nat, n: int)
    requires
        within(base, n - k - 2),
        n <= 0x5000_0000,
    ensures
        puts_within(nor_pad(base, k), n),
    decreases k,
{
    if k > 0 {
        lemma_pad_within(base, (k - 1) as nat, n);
    }
}

/// A NOR cell stays in range.
pub proof fn lemma_nor_within(base: Pos, k: nat, n: int)
    requires
        k >= 1,
        within(base, n - 2 * k - 4),
        n <= 0x5000_0000,
    ensures
        puts_within(nor_steps(base, k), n),
{
    let w = (2 * (k - 1) + 1) as nat;
    lemma_row_within(base, k, n);
    lemma_pad_within(base, w, n);
    lemma_puts_join(nor_row(base, k), nor_pad(base, w), n);
    assert(puts_within(nor_torch(base), n));
    lemma_puts_join(nor_row(base, k) + nor_pad(base, w), nor_torch(base), n);
}

/// A run stays in range.
pub proof fn lemma_run_within(p: Pos, d: Dir, total: nat, mat: Material, since: int, k: nat, n: int)
    requires
        within(p, n - k - 1),
        n <= 0x5000_0000,
    ensures
        puts_within(run_steps(p, d, total, mat, since, k), n),
    decreases k,
{
    if k > 0 {
        lemma_run_within(p, d, total, mat, since, (k - 1) as nat, n);
        let at = along(p, d, k as int);
        let last = seq![
            Step::Put(moved(at, 0, -1, 0), Block::Solid(mat)),
            Step::Put(at, run_block(d, total, since, k)),
        ];
        assert(puts_within(last, n));
        lemma_puts_join(run_steps(p, d, total, mat, since, (k - 1) as nat), last, n);
    }
}

/// One step of a ramp stays in range.
proof fn lemma_step_within(x: i32, y: int, z: int, mat: Material, since: int, staged: bool, n: int)
    requires
        within((x, y as i32, z as i32), n - 2),
        i32::MIN <= y <= i32::MAX,
        i32::MIN <= z <= i32::MAX,
        n <= 0x5000_0000,
    ensures
        puts_within(flight_steps(x, y, z, 1, 1, mat, since, staged, 1), n),
{
    let all = flight_steps(x, y, z, 1, 1, mat, since, staged, 1);
    let none = flight_steps(x, y, z, 1, 1, mat, since, staged, 0);
    assert(none =~= Seq::empty());
    let at = flight_at(x, y, z, 1, 1, 1);
    assert(all[0] == Step::Put(moved(at, 0, -1, 0), Block::Solid(mat)));
    assert(all[1] == Step::Put(at, dust()));
    assert(all.len() == 3);
}

/// A link between two cells of a macro stays in range.
proof fn lemma_link_within(from: Pos, to: Pos, mat: Material, n: int)
    requires
        within(from, n - 64),
        within(to, n - 64),
        to.1 == from.1 + 1,
        run_length(from.0, to.0) <= 32,
        run_length(from.2, to.2) <= 32,
        n <= 0x5000_0000,
    ensures
        puts_within(link_steps(from, to, to.1, None, mat), n),
{
    let lane = to.1;
    let climb = height(from.1 as int, lane as int);
    assert(climb == 1);
    assert(staged_length(climb) == 1);
    let z1 = from.2 + 1;
    let turn = to.2 - descent(lane as int, to.1 as int);
    assert(turn == to.2 - 3);
    let s1 = crate::tech::staged_since(climb, 0);
    let a = staged_steps(from.0, from.1 as int, from.2 as int, lane as int, 1, mat, 0);
    assert(a == flight_steps(from.0, from.1 as int, from.2 as int, 1, 1, mat, 0, true, 1));
    lemma_step_within(from.0, from.1 as int, from.2 as int, mat, 0, true, n);
    let b = run_x_steps(lane, z1 as i32, from.0, to.0, mat, s1);
    lemma_run_x_within(lane, z1 as i32, from.0, to.0, mat, s1, n);
    lemma_puts_join(a, b, n);
    if turn < z1 {
        let c = seq![Step::Stop(crate::tech::no_room_text(from, to, lane))];
        assert(puts_within(c, n));
        lemma_puts_join(a + b, c, n);
    } else {
        let c = run_z_steps(lane, to.0, z1 as i32, turn as i32, mat, crate::tech::run_end(from.0, to.0, s1));
        lemma_run_z_within(lane, to.0, z1 as i32, turn as i32, mat, crate::tech::run_end(from.0, to.0, s1), n);
        let d = descent_steps(to, lane, turn, to.2 as int, mat);
        lemma_descent_within(to, turn, mat, n);
        lemma_puts_join(c, d, n);
        lemma_puts_join(a + b, c + d, n);
    }
}

proof fn lemma_descent_within(to: Pos, turn: int, mat: Material, n: int)
    requires
        within(to, n - 8),
        turn == to.2 - 3,
        n <= 0x5000_0000,
    ensures
        puts_within(descent_steps(to, to.1, turn, to.2 as int, mat), n),
{
    let a = turn_steps(to.0, to.1, turn, mat);
    assert(puts_within(a, n));
    let b = staged_steps(to.0, to.1 as int, turn + 3, to.1 as int, 1, mat, 0);
    assert(b =~= Seq::empty());
    assert(puts_within(b, n));
    lemma_puts_join(a, b, n);
    let drop = height(to.1 as int, to.1 as int);
    assert(drop == 0);
    let end = turn + 3 + staged_length(drop);
    assert(end == to.2);
    let c = run_z_steps(to.1, to.0, end as i32, to.2, mat, crate::tech::staged_since(drop, 0));
    lemma_run_z_within(to.1, to.0, end as i32, to.2, mat, crate::tech::staged_since(drop, 0), n);
    lemma_puts_join(a + b, c, n);
}

proof fn lemma_run_x_within(y: i32, z: i32, from: i32, to: i32, mat: Material, since: int, n: int)
    requires
        within((from, y, z), n - run_length(from, to) - 1),
        n <= 0x5000_0000,
    ensures
        puts_within(run_x_steps(y, z, from, to, mat, since), n),
{
    lemma_run_within((from, y, z), x_dir(from, to), run_length(from, to), mat, since, run_length(from, to), n);
}

proof fn lemma_run_z_within(y: i32, x: i32, from: i32, to: i32, mat: Material, since: int, n: int)
    requires
        within((x, y, from), n - run_length(from, to) - 1),
        n <= 0x5000_0000,
    ensures
        puts_within(run_z_steps(y, x, from, to, mat, since), n),
{
    lemma_run_within((x, y, from), z_dir(from, to), run_length(from, to), mat, since, run_length(from, to), n);
}

/// The way back of a latch stays in range.
proof fn lemma_return_within(base: Pos, n: int)
    requires
        within(base, n - 80),
        n <= 0x5000_0000,
    ensures
        puts_within(return_steps(base), n),
{
    let out = nor_out(latch_b(base));
    let feed = nor_feeds(base, 2)[0];
    let y = (base.1 + 1) as i32;
    let zb = (out.2 + 1) as i32;
    let ret = (base.0 - 3) as i32;
    let s1 = crate::tech::run_end(out.0, ret, 1);
    let s2 = crate::tech::run_end(zb, feed.2, s1);
    let a = flight_steps(out.0, base.1 as int, out.2 as int, 1, 1, Material::Gate, 0, false, 1);
    lemma_step_within(out.0, base.1 as int, out.2 as int, Material::Gate, 0, false, n);
    let b = run_x_steps(y, zb, out.0, ret, Material::Gate, 1);
    lemma_run_x_within(y, zb, out.0, ret, Material::Gate, 1, n);
    let c = run_z_steps(y, ret, zb, feed.2, Material::Gate, s1);
    lemma_run_z_within(y, ret, zb, feed.2, Material::Gate, s1, n);
    let d = run_x_steps(y, feed.2, ret, feed.0, Material::Gate, s2);
    lemma_run_x_within(y, feed.2, ret, feed.0, Material::Gate, s2, n);
    lemma_puts_join(a, b, n);
    lemma_puts_join(a + b, c, n);
    lemma_puts_join(a + b + c, d, n);
}

/// An RS latch stays in range.
pub proof fn lemma_latch_spans(cells: Map<Pos, Block>, base: Pos, n: int)
    requires
        spans(cells, n),
        within(base, n - 80),
        n <= 0x5000_0000,
    ensures
        spans(latch_built(cells, base).0, n),
{
    let b = latch_b(base);
    let plan = nor_steps(base, 2) + nor_steps(b, 3);
    lemma_nor_within(base, 2, n);
    lemma_nor_within(b, 3, n);
    lemma_puts_join(nor_steps(base, 2), nor_steps(b, 3), n);
    lemma_built_spans(cells, plan, n);
    let two = built(cells, plan);
    if two.1 is None {
        let started = latch_started(two.0, base);
        let feed = nor_feeds(b, 3)[0];
        lemma_link_within(nor_out(base), feed, Material::Gate, n);
        lemma_built_spans(started, link_steps(nor_out(base), feed, feed.1, None, Material::Gate), n);
        let linked = built(started, link_steps(nor_out(base), feed, feed.1, None, Material::Gate));
        if linked.1 is None {
            lemma_return_within(base, n);
            lemma_built_spans(switched_on(started, linked.0), return_steps(base), n);
        }
    }
}

} // verus!
