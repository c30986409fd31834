//! Technology mapping: the redstone cell library.
//!
//! Everything the compiler emits is built from one logic cell (a multi-input
//! NOR) plus wiring primitives. The geometry below is the load-bearing part of
//! the whole project, so each piece is justified against the rules in
//! [`crate::redstone`].
//!
//! # The NOR cell
//!
//! Looking down the +Z axis, with `d` the cell's facing direction:
//!
//! ```text
//!   z = ZG-2   feed points: drivers must deliver dust here
//!   z = ZG-1   repeaters, one per fan-in, driving south into the pad
//!   z = ZG     input pad: substrate, dust on top, opaque roof above
//!   z = ZG+1   wall torch, attached to the pad's first support block
//!   z = ZG+2   output dust, beside the torch and one level below the pad
//! ```
//!
//! Why each piece is there:
//!
//! * Fan-in arrives through **repeaters**, not bare dust. Repeaters are diodes,
//!   so several driven nets can merge onto one pad without back-feeding each
//!   other, and each one restores the signal to full strength.
//! * A **wide pad is refreshed**: dust dies after fifteen blocks, so between every
//!   seventh input and the next a repeater passes the signal on towards the torch.
//! * The **pad dust sits on top of** the torch's support block. Dust-on-top is
//!   the one unambiguous way to weakly power a block, and a weakly powered
//!   block is exactly what extinguishes a torch.
//! * The **output is beside the torch, not above it.** A lit torch *strongly*
//!   powers the block above itself, and a strongly powered block energises every
//!   adjacent dust - including the input pad one block away. Routing the output
//!   over the top therefore turns the cell into an oscillator. Taking it from
//!   the side costs one level of drop and keeps input and output isolated.
//! * The **roof** seals the pad from above so nothing routed overhead can form
//!   an up-slope connection into the cell's input.
use crate::steps::{built, is_open, lemma_built_join, lemma_built_stops, put, refusal, Step};
use crate::text::{push_signed, signed};
use crate::posmap::PosMap;
use crate::world::{
    block_at, opposite_of, pos_label, push_pos, Block, Dir, Face, Grid, Material, Pos,
};
use vstd::prelude::*;
use vstd::string::*;

pub mod plane;

pub use crate::flop::{stamp_d_latch, stamp_dff, DLatchPorts, DffPorts};

verus! {

/// Signal strength budget for a dust run before a repeater is required.
/// Dust starts at 15 and dies at 0, so 14 blocks is the safe span.
pub const MAX_RUN: i32 = 13;

/// Coordinates with room for any macro: far beyond the border of a world.
pub open spec fn in_world(p: Pos) -> bool {
    &&& -0x1001_0000 <= p.0 <= 0x1001_0000
    &&& -0x1001_0000 <= p.1 <= 0x1001_0000
    &&& -0x1001_0000 <= p.2 <= 0x1001_0000
}

/// Coordinates with room for a whole macro around them.
pub open spec fn well_inside(p: Pos) -> bool {
    &&& -0x0fff_0000 <= p.0 <= 0x0fff_0000
    &&& -0x0fff_0000 <= p.1 <= 0x0fff_0000
    &&& -0x0fff_0000 <= p.2 <= 0x0fff_0000
}

/// A placed NOR cell: where its inputs must be delivered and where its output
/// appears.
#[derive(Debug)]
pub struct NorCell {
    /// One feed point per fan-in. A driver must deliver dust here, at
    /// `plane::IN`, so the repeater sees it on its input side.
    pub feeds: Vec<Pos>,
    /// The cell's output dust, at `plane::OUT`.
    pub out: Pos,
    /// Columns the cell occupies in X, starting at its base.
    pub width: i32,
}

impl Clone for NorCell {
    fn clone(&self) -> (r: NorCell)
        ensures
            r.feeds@ == self.feeds@,
            r.out == self.out,
            r.width == self.width,
    {
        let mut feeds: Vec<Pos> = Vec::new();
        for i in 0..self.feeds.len()
            invariant
                feeds@ == self.feeds@.take(i as int),
        {
            feeds.push(self.feeds[i]);
            assert(feeds@ =~= self.feeds@.take(i + 1));
        }
        assert(self.feeds@.take(self.feeds@.len() as int) =~= self.feeds@);
        NorCell { feeds, out: self.out, width: self.width }
    }
}

pub open spec fn dust() -> Block {
    Block::Dust { power: 0 }
}

/// A repeater as it is placed: it reads from `facing`.
pub open spec fn repeater(facing: Dir) -> Block {
    Block::Repeater { facing, delay: 1, powered: false }
}

/// The position `(dx, dy, dz)` from `p`.
pub open spec fn moved(p: Pos, dx: int, dy: int, dz: int) -> Pos {
    ((p.0 + dx) as i32, (p.1 + dy) as i32, (p.2 + dz) as i32)
}

/// The repeater row of a NOR cell: a support and a repeater per fan-in, two
/// columns apart so that the feeds do not touch.
pub open spec fn nor_row(base: Pos, n: nat) -> Seq<Step>
    decreases n,
{
    if n == 0 {
        Seq::empty()
    } else {
        let i = n - 1;
        nor_row(base, i as nat) + seq![
            Step::Put(moved(base, 2 * i, 0, -1), Block::Solid(Material::Wire)),
            Step::Put(moved(base, 2 * i, 1, -1), repeater(Dir::North)),
        ]
    }
}

/// Column `i` of a pad lies between two inputs and carries a repeater instead of dust:
/// as often as dust has to be refreshed.
pub open spec fn is_refresh(i: int) -> bool {
    i % (MAX_RUN + 1) == MAX_RUN
}

/// What carries the signal in column `i` of a pad towards the torch.
pub open spec fn pad_block(i: int) -> Block {
    if is_refresh(i) {
        repeater(Dir::East)
    } else {
        dust()
    }
}

/// The pad of a NOR cell: substrate, wire, and roof, over `n` columns.
pub open spec fn nor_pad(base: Pos, n: nat) -> Seq<Step>
    decreases n,
{
    if n == 0 {
        Seq::empty()
    } else {
        let i = n - 1;
        nor_pad(base, i as nat) + seq![
            Step::Put(moved(base, i, 0, 0), Block::Solid(Material::Gate)),
            Step::Put(moved(base, i, 1, 0), pad_block(i)),
            Step::Put(moved(base, i, 2, 0), Block::Solid(Material::Shield)),
        ]
    }
}

/// The inverting torch on the pad's first support block, and the output beside it.
pub open spec fn nor_torch(base: Pos) -> Seq<Step> {
    seq![
        Step::Put(moved(base, 0, 0, 1), Block::WallTorch { facing: Dir::South, lit: true }),
        Step::Put(moved(base, 0, -1, 2), Block::Solid(Material::Gate)),
        Step::Put(moved(base, 0, 0, 2), dust()),
    ]
}

/// The inputs a cell is stamped with: at least one.
pub open spec fn fan_in(n: int) -> nat {
    if n < 1 {
        1
    } else {
        n as nat
    }
}

/// A NOR cell with `k` inputs, block by block.
pub open spec fn nor_steps(base: Pos, k: nat) -> Seq<Step> {
    nor_row(base, k) + nor_pad(base, (2 * (k - 1) + 1) as nat) + nor_torch(base)
}

/// Where the feeds of a NOR cell are.
pub open spec fn nor_feeds(base: Pos, k: nat) -> Seq<Pos> {
    Seq::new(k, |i: int| moved(base, 2 * i, 1, -2))
}

/// Where the output of a NOR cell is.
pub open spec fn nor_out(base: Pos) -> Pos {
    moved(base, 0, 0, 2)
}

proof fn lemma_row_len(base: Pos, n: nat)
    ensures
        nor_row(base, n).len() == 2 * n,
    decreases n,
{
    if n > 0 {
        lemma_row_len(base, (n - 1) as nat);
    }
}

proof fn lemma_pad_len(base: Pos, n: nat)
    ensures
        nor_pad(base, n).len() == 3 * n,
    decreases n,
{
    if n > 0 {
        lemma_pad_len(base, (n - 1) as nat);
    }
}

/// The first rows and pads of a longer one are the shorter one's.
proof fn lemma_row_prefix(base: Pos, n: nat, m: nat)
    requires
        n <= m,
    ensures
        nor_row(base, m).len() == 2 * m,
        nor_row(base, m).take(2 * n as int) == nor_row(base, n),
    decreases m,
{
    lemma_row_len(base, m);
    lemma_row_len(base, n);
    if n == m {
        assert(nor_row(base, m).take(2 * n as int) =~= nor_row(base, n));
    } else {
        lemma_row_prefix(base, n, (m - 1) as nat);
        lemma_row_len(base, (m - 1) as nat);
        assert(nor_row(base, m).take(2 * n as int) =~= nor_row(base, (m - 1) as nat).take(
            2 * n as int,
        ));
    }
}

proof fn lemma_pad_prefix(base: Pos, n: nat, m: nat)
    requires
        n <= m,
    ensures
        nor_pad(base, m).len() == 3 * m,
        nor_pad(base, m).take(3 * n as int) == nor_pad(base, n),
    decreases m,
{
    lemma_pad_len(base, m);
    lemma_pad_len(base, n);
    if n == m {
        assert(nor_pad(base, m).take(3 * n as int) =~= nor_pad(base, n));
    } else {
        lemma_pad_prefix(base, n, (m - 1) as nat);
        lemma_pad_len(base, (m - 1) as nat);
        assert(nor_pad(base, m).take(3 * n as int) =~= nor_pad(base, (m - 1) as nat).take(
            3 * n as int,
        ));
    }
}

/// Stamp a NOR cell with `fanin` inputs.
///
/// `base` is the substrate corner `(x, y, z)`. The cell grows toward +X for
/// additional fan-in and toward +Z for its output.
pub fn stamp_nor(g: &mut Grid, base: Pos, fanin: usize) -> (r: Result<NorCell, String>)
    requires
        in_world(base),
        fanin <= 0x0400_0000,
    ensures
        built(old(g)@, nor_steps(base, fan_in(fanin as int))) == (final(g)@, refusal(r)),
        match r {
            Ok(c) => {
                &&& c.feeds@ == nor_feeds(base, fan_in(fanin as int))
                &&& c.out == nor_out(base)
                &&& c.width == 2 * (fan_in(fanin as int) - 1) + 1
            },
            Err(_) => true,
        },
{
    let (x, y, z) = base;
    let k: i32 = if fanin < 1 {
        1
    } else {
        fanin as i32
    };
    // Fan-in columns are spaced two apart. Adjacent feed points would be
    // orthogonally adjacent dust, which conducts - so the cell's separate input
    // nets would short together. The pad between them is deliberately continuous
    // (it is one net), but the feeds must not touch.
    let pad_width: i32 = (k - 1) * 2 + 1;
    let mut feeds: Vec<Pos> = Vec::new();
    let ghost start = g@;
    let ghost row = nor_row(base, k as nat);
    let ghost pad = nor_pad(base, pad_width as nat);
    let ghost plan = nor_steps(base, k as nat);
    proof {
        lemma_row_len(base, k as nat);
        lemma_pad_len(base, pad_width as nat);
        assert(plan.take(0) =~= Seq::empty());
    }
    for i in 0..k
        invariant
            in_world(base),
            base == (x, y, z),
            1 <= k <= 0x0400_0000,
            start == old(g)@,
            plan == nor_steps(base, fan_in(fanin as int)),
            row == nor_row(base, k as nat),
            row.len() == 2 * k,
            plan.len() >= 2 * k,
            plan.take(2 * k as int) == row,
            built(start, plan.take(2 * i as int)) == (g@, None::<Seq<char>>),
            feeds@.len() == i,
            forall|j: int| 0 <= j < i ==> #[trigger] feeds@[j] == moved(base, 2 * j, 1, -2),
    {
        let cx: i32 = x + i * 2;
        proof {
            lemma_row_prefix(base, (i + 1) as nat, k as nat);
            lemma_row_len(base, i as nat);
            let part = nor_row(base, (i + 1) as nat);
            assert(row.take(2 * (i + 1)) == part);
            assert(row[2 * i] == part[2 * i]);
            assert(row[2 * i + 1] == part[2 * i + 1]);
            assert(plan.take(2 * k as int)[2 * i] == plan[2 * i as int]);
            assert(plan.take(2 * k as int)[2 * i + 1] == plan[2 * i + 1]);
        }
        // Repeater row: reads from the north, drives south into the pad.
        put(
            g,
            (cx, y + plane::SUPPORT, z - 1),
            Block::Solid(Material::Wire),
            Ghost(start),
            Ghost(plan),
            Ghost(2 * i as int),
        )?;
        put(
            g,
            (cx, y + plane::IN, z - 1),
            Block::Repeater { facing: Dir::North, delay: 1, powered: false },
            Ghost(start),
            Ghost(plan),
            Ghost(2 * i + 1),
        )?;
        // The driver must deliver dust here for the repeater to read.
        feeds.push((cx, y + plane::IN, z - 2));
    }
    // Input pad: one net across the full width, on substrate, sealed above by an
    // opaque roof. A wide pad is refreshed on its way to the torch, or the inputs
    // beyond the reach of dust would not arrive.
    for i in 0..pad_width
        invariant
            in_world(base),
            base == (x, y, z),
            1 <= k <= 0x0400_0000,
            start == old(g)@,
            plan == nor_steps(base, fan_in(fanin as int)),
            pad_width == 2 * (k - 1) + 1,
            pad == nor_pad(base, pad_width as nat),
            pad.len() == 3 * pad_width,
            row.len() == 2 * k,
            plan == row + pad + nor_torch(base),
            built(start, plan.take(2 * k + 3 * i)) == (g@, None::<Seq<char>>),
    {
        let ghost at = 2 * k + 3 * i;
        proof {
            lemma_pad_prefix(base, (i + 1) as nat, pad_width as nat);
            lemma_pad_len(base, i as nat);
            let part = nor_pad(base, (i + 1) as nat);
            assert(pad.take(3 * (i + 1)) == part);
            assert(pad[3 * i] == part[3 * i]);
            assert(pad[3 * i + 1] == part[3 * i + 1]);
            assert(pad[3 * i + 2] == part[3 * i + 2]);
            assert(plan[at] == pad[3 * i]);
            assert(plan[at + 1] == pad[3 * i + 1]);
            assert(plan[at + 2] == pad[3 * i + 2]);
        }
        put(
            g,
            (x + i, y + plane::SUPPORT, z),
            Block::Solid(Material::Gate),
            Ghost(start),
            Ghost(plan),
            Ghost(at),
        )?;
        let wire = if i % (MAX_RUN + 1) == MAX_RUN {
            Block::Repeater { facing: Dir::East, delay: 1, powered: false }
        } else {
            Block::Dust { power: 0 }
        };
        put(
            g,
            (x + i, y + plane::IN, z),
            wire,
            Ghost(start),
            Ghost(plan),
            Ghost(at + 1),
        )?;
        put(
            g,
            (x + i, y + plane::ROOF, z),
            Block::Solid(Material::Shield),
            Ghost(start),
            Ghost(plan),
            Ghost(at + 2),
        )?;
    }
    let ghost at = 2 * k + 3 * pad_width;
    assert(plan[at] == nor_torch(base)[0]);
    assert(plan[at + 1] == nor_torch(base)[1]);
    assert(plan[at + 2] == nor_torch(base)[2]);
    // Torch on the south face of the pad's first support block. The output is
    // the dust beside the torch, NOT the block above it: that block would be
    // strongly powered and would drive the input pad next door.
    put(
        g,
        (x, y + plane::SUPPORT, z + 1),
        Block::WallTorch { facing: Dir::South, lit: true },
        Ghost(start),
        Ghost(plan),
        Ghost(at),
    )?;
    put(
        g,
        (x, y + plane::OUT - 1, z + 2),
        Block::Solid(Material::Gate),
        Ghost(start),
        Ghost(plan),
        Ghost(at + 1),
    )?;
    put(
        g,
        (x, y + plane::OUT, z + 2),
        Block::Dust { power: 0 },
        Ghost(start),
        Ghost(plan),
        Ghost(at + 2),
    )?;
    proof {
        assert(plan.take(at + 3) =~= plan);
        assert(feeds@ =~= nor_feeds(base, k as nat));
    }
    Ok(NorCell { feeds, out: (x, y + plane::OUT, z + 2), width: pad_width })
}

/// Tracks how far a signal has travelled since it was last restored to full
/// strength.
///
/// The budget must be threaded across an *entire* driver-to-sink path, not per
/// straight segment. A path assembled from several short runs still decays
/// monotonically, so a per-segment counter silently produces circuits whose
/// signal dies in transit.
pub struct Budget {
    since: i32,
}

impl Budget {
    /// How far the signal has travelled.
    pub closed spec fn since(&self) -> int {
        self.since as int
    }

    /// Start at a fresh driver (a torch, repeater or lever), which emits 15.
    pub fn fresh() -> (b: Budget)
        ensures
            b.since() == 0,
    {
        Budget { since: 0 }
    }

    /// Record one block of travel; returns true if a repeater is due here.
    fn step(&mut self) -> (due: bool)
        requires
            old(self).since() < i32::MAX,
        ensures
            due == (old(self).since() + 1 >= MAX_RUN),
            final(self).since() == if due {
                0
            } else {
                old(self).since() + 1
            },
    {
        self.since = self.since + 1;
        if self.since >= MAX_RUN {
            self.since = 0;
            true
        } else {
            false
        }
    }

    /// A ramp block costs strength but cannot hold a repeater, so it only
    /// consumes budget.
    fn step_no_repeater(&mut self) -> (r: Result<(), String>)
        requires
            old(self).since() < i32::MAX,
        ensures
            final(self).since() == old(self).since() + 1,
            refusal(r) == if final(self).since() >= MAX_RUN {
                Some(too_long())
            } else {
                None
            },
    {
        self.since = self.since + 1;
        if self.since >= MAX_RUN {
            return Err(String::from_str("ramp is too long to cross without a repeater"));
        }
        Ok(())
    }
}

/// What a ramp that outlasts the signal is refused with.
pub open spec fn too_long() -> Seq<char> {
    "ramp is too long to cross without a repeater"@
}

/// The `n`th position from `p` in direction `d`.
pub open spec fn along(p: Pos, d: Dir, n: int) -> Pos {
    match d {
        Dir::North => moved(p, 0, 0, -n),
        Dir::South => moved(p, 0, 0, n),
        Dir::West => moved(p, -n, 0, 0),
        Dir::East => moved(p, n, 0, 0),
    }
}

/// The budget after `n` blocks of a run over `total` blocks. A repeater restores
/// it, and stands where it is due, but never on the first or the last block of the
/// run: those are corners where the path changes direction.
pub open spec fn run_since(total: nat, since: int, n: nat) -> int
    decreases n,
{
    if n == 0 {
        since
    } else {
        let before = run_since(total, since, (n - 1) as nat);
        if before + 1 < MAX_RUN {
            before + 1
        } else if n != 1 && n != total {
            0
        } else {
            MAX_RUN - 1
        }
    }
}

/// The `n`th block of a run over `total` blocks in direction `d`.
pub open spec fn run_block(d: Dir, total: nat, since: int, n: nat) -> Block {
    if run_since(total, since, (n - 1) as nat) + 1 >= MAX_RUN && n != 1 && n != total {
        repeater(opposite_of(d))
    } else {
        dust()
    }
}

/// The first `n` blocks of a run over `total` blocks from `p` in direction `d`.
pub open spec fn run_steps(p: Pos, d: Dir, total: nat, mat: Material, since: int, n: nat) -> Seq<Step>
    decreases n,
{
    if n == 0 {
        Seq::empty()
    } else {
        let at = along(p, d, n as int);
        run_steps(p, d, total, mat, since, (n - 1) as nat) + seq![
            Step::Put(moved(at, 0, -1, 0), Block::Solid(mat)),
            Step::Put(at, run_block(d, total, since, n)),
        ]
    }
}

/// Dust runs never outlast the signal: between two restorations there are fewer
/// than [`MAX_RUN`] blocks.
pub proof fn lemma_run_since(total: nat, since: int, n: nat)
    requires
        0 <= since < MAX_RUN,
    ensures
        0 <= run_since(total, since, n) < MAX_RUN,
    decreases n,
{
    if n > 0 {
        lemma_run_since(total, since, (n - 1) as nat);
    }
}

proof fn lemma_run_len(p: Pos, d: Dir, total: nat, mat: Material, since: int, n: nat)
    ensures
        run_steps(p, d, total, mat, since, n).len() == 2 * n,
    decreases n,
{
    if n > 0 {
        lemma_run_len(p, d, total, mat, since, (n - 1) as nat);
    }
}

proof fn lemma_run_prefix(p: Pos, d: Dir, total: nat, mat: Material, since: int, n: nat, m: nat)
    requires
        n <= m,
    ensures
        run_steps(p, d, total, mat, since, m).len() == 2 * m,
        run_steps(p, d, total, mat, since, m).take(2 * n as int) == run_steps(
            p,
            d,
            total,
            mat,
            since,
            n,
        ),
    decreases m,
{
    lemma_run_len(p, d, total, mat, since, m);
    lemma_run_len(p, d, total, mat, since, n);
    let all = run_steps(p, d, total, mat, since, m);
    if n == m {
        assert(all.take(2 * n as int) =~= run_steps(p, d, total, mat, since, n));
    } else {
        lemma_run_prefix(p, d, total, mat, since, n, (m - 1) as nat);
        let most = run_steps(p, d, total, mat, since, (m - 1) as nat);
        lemma_run_len(p, d, total, mat, since, (m - 1) as nat);
        assert(all.take(2 * n as int) =~= most.take(2 * n as int));
    }
}

/// The end of a run has coordinates that fit, and so has what is under it.
spec fn run_fits(p: Pos, d: Dir, total: int) -> bool {
    &&& p.1 > i32::MIN
    &&& match d {
        Dir::North => p.2 - total >= i32::MIN,
        Dir::South => p.2 + total <= i32::MAX,
        Dir::West => p.0 - total >= i32::MIN,
        Dir::East => p.0 + total <= i32::MAX,
    }
}

/// Lay a run of `total` blocks from `p` in direction `d`.
fn run(g: &mut Grid, p: Pos, d: Dir, total: u32, mat: Material, budget: &mut Budget) -> (r: Result<
    (),
    String,
>)
    requires
        run_fits(p, d, total as int),
        old(budget).since() < i32::MAX,
    ensures
        built(old(g)@, run_steps(p, d, total as nat, mat, old(budget).since(), total as nat)) == (
            final(g)@,
            refusal(r),
        ),
        r is Ok ==> final(budget).since() == run_since(total as nat, old(budget).since(), total as nat),
{
    let facing = d.opposite();
    let ghost start = g@;
    let ghost since = budget.since();
    let ghost plan = run_steps(p, d, total as nat, mat, since, total as nat);
    proof {
        lemma_run_len(p, d, total as nat, mat, since, total as nat);
        assert(plan.take(0) =~= Seq::empty());
    }
    for i in 0..total
        invariant
            start == old(g)@,
            since == old(budget).since(),
            run_fits(p, d, total as int),
            facing == opposite_of(d),
            plan == run_steps(p, d, total as nat, mat, since, total as nat),
            plan.len() == 2 * total,
            built(start, plan.take(2 * i as int)) == (g@, None::<Seq<char>>),
            budget.since() == run_since(total as nat, since, i as nat),
            budget.since() < i32::MAX,
    {
        let n: i64 = i as i64 + 1;
        let at: Pos = match d {
            Dir::North => (p.0, p.1, (p.2 as i64 - n) as i32),
            Dir::South => (p.0, p.1, (p.2 as i64 + n) as i32),
            Dir::West => ((p.0 as i64 - n) as i32, p.1, p.2),
            Dir::East => ((p.0 as i64 + n) as i32, p.1, p.2),
        };
        proof {
            assert(at == along(p, d, n as int));
            lemma_run_prefix(p, d, total as nat, mat, since, (i + 1) as nat, total as nat);
            lemma_run_len(p, d, total as nat, mat, since, i as nat);
            let part = run_steps(p, d, total as nat, mat, since, (i + 1) as nat);
            assert(plan.take(2 * (i + 1))[2 * i] == part[2 * i]);
            assert(plan.take(2 * (i + 1))[2 * i + 1] == part[2 * i + 1]);
        }
        put(
            g,
            (at.0, at.1 - 1, at.2),
            Block::Solid(mat),
            Ghost(start),
            Ghost(plan),
            Ghost(2 * i as int),
        )?;
        let due = budget.step();
        if due && i != 0 && i + 1 != total {
            put(
                g,
                at,
                Block::Repeater { facing, delay: 1, powered: false },
                Ghost(start),
                Ghost(plan),
                Ghost(2 * i + 1),
            )?;
        } else {
            if due {
                // Could not refresh at a corner; carry the cost forward.
                budget.since = MAX_RUN - 1;
            }
            put(
                g,
                at,
                Block::Dust { power: 0 },
                Ghost(start),
                Ghost(plan),
                Ghost(2 * i + 1),
            )?;
        }
    }
    assert(plan.take(2 * total as int) =~= plan);
    Ok(())
}

/// A run along X: its direction and length.
pub open spec fn run_x_steps(y: i32, z: i32, from_x: i32, to_x: i32, mat: Material, since: int) -> Seq<Step> {
    let total = run_length(from_x, to_x);
    run_steps((from_x, y, z), x_dir(from_x, to_x), total, mat, since, total)
}

/// A run along Z.
pub open spec fn run_z_steps(y: i32, x: i32, from_z: i32, to_z: i32, mat: Material, since: int) -> Seq<Step> {
    let total = run_length(from_z, to_z);
    run_steps((x, y, from_z), z_dir(from_z, to_z), total, mat, since, total)
}

pub open spec fn x_dir(from: i32, to: i32) -> Dir {
    if to > from {
        Dir::East
    } else {
        Dir::West
    }
}

pub open spec fn z_dir(from: i32, to: i32) -> Dir {
    if to > from {
        Dir::South
    } else {
        Dir::North
    }
}

pub open spec fn run_length(from: i32, to: i32) -> nat {
    if to > from {
        (to - from) as nat
    } else {
        (from - to) as nat
    }
}

/// The budget at the end of a run.
pub open spec fn run_end(from: i32, to: i32, since: int) -> int {
    run_since(run_length(from, to), since, run_length(from, to))
}

fn distance(from: i32, to: i32) -> (n: u32)
    ensures
        n == run_length(from, to),
{
    if to > from {
        (to as i64 - from as i64) as u32
    } else {
        (from as i64 - to as i64) as u32
    }
}

/// Lay a straight dust run along X at a fixed Y and Z, inserting repeaters so
/// the signal never decays to nothing.
///
/// `from_x` is the driven end; repeaters point back toward it, since a
/// repeater's `facing` runs from its output side to its input side. A repeater
/// is never placed on the first or last block of a segment: those are corners
/// where the path changes direction, and a repeater only conducts along its own
/// axis.
pub fn run_x(
    g: &mut Grid,
    y: i32,
    z: i32,
    from_x: i32,
    to_x: i32,
    material: Material,
    budget: &mut Budget,
) -> (r: Result<(), String>)
    requires
        y > i32::MIN,
        old(budget).since() < i32::MAX,
    ensures
        built(old(g)@, run_x_steps(y, z, from_x, to_x, material, old(budget).since())) == (
            final(g)@,
            refusal(r),
        ),
        r is Ok ==> final(budget).since() == run_end(from_x, to_x, old(budget).since()),
{
    let d = if to_x > from_x {
        Dir::East
    } else {
        Dir::West
    };
    run(g, (from_x, y, z), d, distance(from_x, to_x), material, budget)
}

/// Lay a straight dust run along Z, same discipline as [`run_x`].
pub fn run_z(
    g: &mut Grid,
    y: i32,
    x: i32,
    from_z: i32,
    to_z: i32,
    material: Material,
    budget: &mut Budget,
) -> (r: Result<(), String>)
    requires
        y > i32::MIN,
        old(budget).since() < i32::MAX,
    ensures
        built(old(g)@, run_z_steps(y, x, from_z, to_z, material, old(budget).since())) == (
            final(g)@,
            refusal(r),
        ),
        r is Ok ==> final(budget).since() == run_end(from_z, to_z, old(budget).since()),
{
    let d = if to_z > from_z {
        Dir::South
    } else {
        Dir::North
    };
    run(g, (x, y, from_z), d, distance(from_z, to_z), material, budget)
}

// --- ramps -----------------------------------------------------------------------

/// One block of a flight from `(y, z)` in column `x`: the `n`th block is `n` levels
/// further towards the end and `n` steps along Z.
pub open spec fn flight_at(x: i32, y: int, z: int, dy: int, step_z: int, n: int) -> Pos {
    (x, (y + dy * n) as i32, (z + step_z * n) as i32)
}

/// The cell that must stay clear for the `n`th block of a flight to connect: the
/// one above the lower of the two dusts.
pub open spec fn flight_gap(x: i32, y: int, z: int, dy: int, step_z: int, n: int) -> Pos {
    let at = flight_at(x, y, z, dy, step_z, n);
    if dy < 0 {
        moved(at, 0, 1, 0)
    } else {
        moved(at, 0, 0, -step_z)
    }
}

/// What a blocked slope is refused with.
pub open spec fn slope_text(x: i32, z: i32, gap: Pos) -> Seq<char> {
    "ramp at x="@ + signed(x as int) + " z="@ + signed(z as int) + ": "@ + pos_label(gap)
        + " is opaque and breaks the slope"@
}

/// What a blocked staircase is refused with.
pub open spec fn roofed_text(x: i32, z: i32, gap: Pos) -> Seq<char> {
    "staircase at x="@ + signed(x as int) + " z="@ + signed(z as int) + " is roofed at "@
        + pos_label(gap)
}

/// The first `n` blocks of a flight.
pub open spec fn flight_steps(
    x: i32,
    y: int,
    z: int,
    dy: int,
    step_z: int,
    mat: Material,
    since: int,
    staged: bool,
    n: nat,
) -> Seq<Step>
    decreases n,
{
    if n == 0 {
        Seq::empty()
    } else {
        let at = flight_at(x, y, z, dy, step_z, n as int);
        let gap = flight_gap(x, y, z, dy, step_z, n as int);
        flight_steps(x, y, z, dy, step_z, mat, since, staged, (n - 1) as nat) + seq![
            Step::Put(moved(at, 0, -1, 0), Block::Solid(mat)),
            Step::Put(at, dust()),
            if since + n >= MAX_RUN {
                Step::Stop(too_long())
            } else {
                Step::Open(
                    gap,
                    if staged {
                        roofed_text(x, at.2, gap)
                    } else {
                        slope_text(x, at.2, gap)
                    },
                )
            },
        ]
    }
}

proof fn lemma_flight_len(x: i32, y: int, z: int, dy: int, step_z: int, mat: Material, since: int, staged: bool, n: nat)
    ensures
        flight_steps(x, y, z, dy, step_z, mat, since, staged, n).len() == 3 * n,
    decreases n,
{
    if n > 0 {
        lemma_flight_len(x, y, z, dy, step_z, mat, since, staged, (n - 1) as nat);
    }
}

proof fn lemma_flight_prefix(x: i32, y: int, z: int, dy: int, step_z: int, mat: Material, since: int, staged: bool, n: nat, m: nat)
    requires
        n <= m,
    ensures
        flight_steps(x, y, z, dy, step_z, mat, since, staged, m).len() == 3 * m,
        flight_steps(x, y, z, dy, step_z, mat, since, staged, m).take(3 * n as int) == flight_steps(
            x,
            y,
            z,
            dy,
            step_z,
            mat,
            since,
            staged,
            n,
        ),
    decreases m,
{
    lemma_flight_len(x, y, z, dy, step_z, mat, since, staged, m);
    lemma_flight_len(x, y, z, dy, step_z, mat, since, staged, n);
    let all = flight_steps(x, y, z, dy, step_z, mat, since, staged, m);
    if n == m {
        assert(all.take(3 * n as int) =~= flight_steps(x, y, z, dy, step_z, mat, since, staged, n));
    } else {
        lemma_flight_prefix(x, y, z, dy, step_z, mat, since, staged, n, (m - 1) as nat);
        let most = flight_steps(x, y, z, dy, step_z, mat, since, staged, (m - 1) as nat);
        lemma_flight_len(x, y, z, dy, step_z, mat, since, staged, (m - 1) as nat);
        assert(all.take(3 * n as int) =~= most.take(3 * n as int));
    }
}

fn slope_message(x: i32, z: i32, gap: Pos, staged: bool) -> (s: String)
    ensures
        s@ == if staged {
            roofed_text(x, z, gap)
        } else {
            slope_text(x, z, gap)
        },
{
    let mut s = String::from_str(
        if staged {
            "staircase at x="
        } else {
            "ramp at x="
        },
    );
    push_signed(&mut s, x as i64);
    s.append(" z=");
    push_signed(&mut s, z as i64);
    if staged {
        s.append(" is roofed at ");
        push_pos(&mut s, gap);
    } else {
        s.append(": ");
        push_pos(&mut s, gap);
        s.append(" is opaque and breaks the slope");
    }
    s
}

/// Lay one block of a flight, the steps `k` to `k + 2` of `plan`.
fn flight_block(
    g: &mut Grid,
    at: Pos,
    gap: Pos,
    mat: Material,
    budget: &mut Budget,
    staged: bool,
    Ghost(start): Ghost<Map<Pos, Block>>,
    Ghost(plan): Ghost<Seq<Step>>,
    Ghost(k): Ghost<int>,
) -> (r: Result<(), String>)
    requires
        at.1 > i32::MIN,
        0 <= k,
        k + 3 <= plan.len(),
        old(budget).since() < i32::MAX,
        plan[k] == Step::Put(moved(at, 0, -1, 0), Block::Solid(mat)),
        plan[k + 1] == Step::Put(at, dust()),
        plan[k + 2] == if old(budget).since() + 1 >= MAX_RUN {
            Step::Stop(too_long())
        } else {
            Step::Open(
                gap,
                if staged {
                    roofed_text(at.0, at.2, gap)
                } else {
                    slope_text(at.0, at.2, gap)
                },
            )
        },
        built(start, plan.take(k)) == (old(g)@, None::<Seq<char>>),
    ensures
        match r {
            Ok(_) => {
                &&& built(start, plan.take(k + 3)) == (final(g)@, None::<Seq<char>>)
                &&& final(budget).since() == old(budget).since() + 1
                &&& final(budget).since() < MAX_RUN
            },
            Err(m) => built(start, plan) == (final(g)@, Some(m@)),
        },
{
    let ghost m = if staged {
        roofed_text(at.0, at.2, gap)
    } else {
        slope_text(at.0, at.2, gap)
    };
    put(g, (at.0, at.1 - 1, at.2), Block::Solid(mat), Ghost(start), Ghost(plan), Ghost(k))?;
    put(g, at, Block::Dust { power: 0 }, Ghost(start), Ghost(plan), Ghost(k + 1))?;
    match budget.step_no_repeater() {
        Ok(_) => {},
        Err(e) => {
            proof {
                assert(plan.take(k + 3) =~= plan.take(k + 2).push(plan[k + 2]));
                crate::steps::lemma_built_push(start, plan.take(k + 2), plan[k + 2]);
                lemma_built_stops(start, plan, k + 3);
            }
            return Err(e);
        },
    }
    // Descending, the new dust is the lower one; ascending, the previous
    // dust is. Either way the cell above the lower dust must stay clear.
    if !is_open(g, gap, Ghost(m), Ghost(start), Ghost(plan), Ghost(k + 2)) {
        return Err(slope_message(at.0, at.2, gap, staged));
    }
    Ok(())
}

/// Lay a flight of `n` blocks. The signal dies after [`MAX_RUN`] blocks, so a
/// longer flight fails before it is over.
fn flight(
    g: &mut Grid,
    x: i32,
    y: i32,
    z: i32,
    dy: i32,
    step_z: i32,
    n: u32,
    mat: Material,
    budget: &mut Budget,
    staged: bool,
) -> (r: Result<(), String>)
    requires
        dy == 1 || dy == -1,
        0 <= old(budget).since() < 0x1000,
        flight_fits(y as int, z as int, dy as int, step_z as int, flight_reach(n as int, old(budget).since())),
    ensures
        built(
            old(g)@,
            flight_steps(
                x,
                y as int,
                z as int,
                dy as int,
                step_z as int,
                mat,
                old(budget).since(),
                staged,
                n as nat,
            ),
        ) == (final(g)@, refusal(r)),
        r is Ok ==> final(budget).since() == old(budget).since() + n,
        r is Ok ==> n == 0 || old(budget).since() + n < MAX_RUN,
{
    let ghost start = g@;
    let ghost since = budget.since();
    let ghost plan = flight_steps(x, y as int, z as int, dy as int, step_z as int, mat, since, staged, n as nat);
    proof {
        lemma_flight_len(x, y as int, z as int, dy as int, step_z as int, mat, since, staged, n as nat);
        assert(plan.take(0) =~= Seq::empty());
    }
    for i in 0..n
        invariant
            start == old(g)@,
            since == old(budget).since(),
            0 <= since < 0x1000,
            dy == 1 || dy == -1,
            flight_fits(y as int, z as int, dy as int, step_z as int, flight_reach(n as int, since)),
            plan == flight_steps(x, y as int, z as int, dy as int, step_z as int, mat, since, staged, n as nat),
            plan.len() == 3 * n,
            built(start, plan.take(3 * i as int)) == (g@, None::<Seq<char>>),
            budget.since() == since + i,
            i == 0 || since + i < MAX_RUN,
    {
        let (at, gap) = flight_place(
            x,
            y,
            z,
            dy,
            step_z,
            i + 1,
            Ghost(flight_reach(n as int, since)),
        );
        proof {
            lemma_flight_entry(x, y as int, z as int, dy as int, step_z as int, mat, since, staged, i as int, n as nat);
        }
        flight_block(g, at, gap, mat, budget, staged, Ghost(start), Ghost(plan), Ghost(3 * i as int))?;
    }
    assert(plan.take(3 * n as int) =~= plan);
    Ok(())
}

proof fn lemma_flight_entry(x: i32, y: int, z: int, dy: int, step_z: int, mat: Material, since: int, staged: bool, i: int, n: nat)
    requires
        0 <= i < n,
    ensures
        ({
            let plan = flight_steps(x, y, z, dy, step_z, mat, since, staged, n);
            let at = flight_at(x, y, z, dy, step_z, i + 1);
            let gap = flight_gap(x, y, z, dy, step_z, i + 1);
            &&& plan.len() == 3 * n
            &&& plan[3 * i] == Step::Put(moved(at, 0, -1, 0), Block::Solid(mat))
            &&& plan[3 * i + 1] == Step::Put(at, dust())
            &&& plan[3 * i + 2] == if since + i + 1 >= MAX_RUN {
                Step::Stop(too_long())
            } else {
                Step::Open(
                    gap,
                    if staged {
                        roofed_text(x, at.2, gap)
                    } else {
                        slope_text(x, at.2, gap)
                    },
                )
            }
        }),
{
    lemma_flight_prefix(x, y, z, dy, step_z, mat, since, staged, (i + 1) as nat, n);
    lemma_flight_len(x, y, z, dy, step_z, mat, since, staged, i as nat);
    let plan = flight_steps(x, y, z, dy, step_z, mat, since, staged, n);
    let part = flight_steps(x, y, z, dy, step_z, mat, since, staged, (i + 1) as nat);
    assert(plan.take(3 * (i + 1))[3 * i] == part[3 * i]);
    assert(plan.take(3 * (i + 1))[3 * i + 1] == part[3 * i + 1]);
    assert(plan.take(3 * (i + 1))[3 * i + 2] == part[3 * i + 2]);
}

/// The `n`th block of a flight, and the cell that must stay clear for it.
fn flight_place(x: i32, y: i32, z: i32, dy: i32, step_z: i32, n: u32, Ghost(reach): Ghost<int>) -> (r: (Pos, Pos))
    requires
        dy == 1 || dy == -1,
        1 <= n <= 13,
        n <= reach,
        flight_fits(y as int, z as int, dy as int, step_z as int, reach),
    ensures
        r.0 == flight_at(x, y as int, z as int, dy as int, step_z as int, n as int),
        r.1 == flight_gap(x, y as int, z as int, dy as int, step_z as int, n as int),
        r.0.1 > i32::MIN,
{
    proof {
        lemma_flight_bounds(y as int, z as int, dy as int, step_z as int, reach, n as int);
        lemma_flight_bounds(y as int, z as int, dy as int, step_z as int, reach, n - 1);
        assert(dy * n == n || dy * n == -n) by (nonlinear_arith)
            requires
                dy == 1 || dy == -1,
        ;
        assert(-0x1_0000_0000_00 < step_z * n < 0x1_0000_0000_00) by (nonlinear_arith)
            requires
                0 <= n <= 13,
                i32::MIN <= step_z <= i32::MAX,
        ;
        assert(step_z * (n - 1) == step_z * n - step_z) by (nonlinear_arith);
    }
    let cy: i32 = (y as i64 + dy as i64 * n as i64) as i32;
    let rise: i64 = step_z as i64 * n as i64;
    let cz: i32 = (z as i64 + rise) as i32;
    let gap: Pos = if dy < 0 {
        (x, cy + 1, cz)
    } else {
        (x, cy, (cz as i64 - step_z as i64) as i32)
    };
    ((x, cy, cz), gap)
}

/// How many blocks of a flight are laid before the signal has died.
spec fn flight_reach(n: int, since: int) -> int {
    if n <= MAX_RUN {
        n
    } else {
        MAX_RUN as int
    }
}

/// The blocks of a flight over `n` blocks have coordinates that fit.
pub open spec fn flight_fits(y: int, z: int, dy: int, step_z: int, n: int) -> bool {
    &&& i32::MIN < y + dy * n < i32::MAX
    &&& i32::MIN < y < i32::MAX
    &&& i32::MIN <= z + step_z * n <= i32::MAX
    &&& i32::MIN <= z <= i32::MAX
}

proof fn lemma_flight_bounds(y: int, z: int, dy: int, step_z: int, n: int, i: int)
    requires
        flight_fits(y, z, dy, step_z, n),
        0 <= i <= n,
    ensures
        i32::MIN < y + dy * i < i32::MAX,
        i32::MIN <= z + step_z * i <= i32::MAX,
{
    lemma_between(y, dy, n, i, i32::MIN + 1, i32::MAX - 1);
    lemma_between(z, step_z, n, i, i32::MIN as int, i32::MAX as int);
}

proof fn lemma_between(a: int, k: int, n: int, i: int, lo: int, hi: int)
    requires
        0 <= i <= n,
        lo <= a <= hi,
        lo <= a + k * n <= hi,
    ensures
        lo <= a + k * i <= hi,
{
    if k >= 0 {
        assert(0 <= k * i <= k * n) by (nonlinear_arith)
            requires
                0 <= i <= n,
                k >= 0,
        ;
    } else {
        assert(k * n <= k * i <= 0) by (nonlinear_arith)
            requires
                0 <= i <= n,
                k < 0,
        ;
    }
}

/// The level step towards `to_y`.
pub open spec fn toward(y: int, to_y: int) -> int {
    if to_y > y {
        1
    } else {
        -1
    }
}

pub open spec fn height(y: int, to_y: int) -> nat {
    if to_y > y {
        (to_y - y) as nat
    } else {
        (y - to_y) as nat
    }
}

/// A dust staircase climbing or descending one level per step along Z.
///
/// Minecraft dust connects diagonally by one Y per horizontal block. The
/// connection exists only if the block **directly above the lower of the two
/// dusts** is non-opaque, so each step verifies exactly that cell. Returns the
/// Z coordinate the ramp finished on.
pub fn ramp_z(
    g: &mut Grid,
    x: i32,
    from: (i32, i32),
    to_y: i32,
    step_z: i32,
    material: Material,
    budget: &mut Budget,
) -> (r: Result<i32, String>)
    requires
        0 <= old(budget).since() < 0x1000,
        i32::MIN < from.0 < i32::MAX,
        i32::MIN < to_y < i32::MAX,
        i32::MIN <= from.1 + 13 * step_z <= i32::MAX,
    ensures
        built(
            old(g)@,
            flight_steps(
                x,
                from.0 as int,
                from.1 as int,
                toward(from.0 as int, to_y as int),
                step_z as int,
                material,
                old(budget).since(),
                false,
                height(from.0 as int, to_y as int),
            ),
        ) == (final(g)@, refusal(r)),
        match r {
            Ok(z) => {
                &&& z == from.1 + step_z * height(from.0 as int, to_y as int)
                &&& final(budget).since() == old(budget).since() + height(from.0 as int, to_y as int)
            },
            Err(_) => true,
        },
{
    let (y, z) = from;
    let dy: i32 = if to_y > y {
        1
    } else {
        -1
    };
    let n: u32 = distance(y, to_y);
    proof {
        let reach = flight_reach(n as int, budget.since());
        assert(dy * reach == reach || dy * reach == -reach) by (nonlinear_arith)
            requires
                dy == 1 || dy == -1,
        ;
        lemma_between(z as int, step_z as int, 13, reach, i32::MIN as int, i32::MAX as int);
        assert(step_z * 13 == 13 * step_z);
    }
    flight(g, x, y, z, dy, step_z, n, material, budget, false)?;
    proof {
        assert(n <= 13);
        lemma_between(z as int, step_z as int, 13, n as int, i32::MIN as int, i32::MAX as int);
        assert(-0x1_0000_0000_00 < step_z * n < 0x1_0000_0000_00) by (nonlinear_arith)
            requires
                0 <= n <= 13,
                i32::MIN <= step_z <= i32::MAX,
        ;
    }
    Ok((z as i64 + step_z as i64 * n as i64) as i32)
}

/// A lever on top of a block, used for input ports, reset, and the clock.
pub fn stamp_lever(g: &mut Grid, pos: Pos, material: Material, on: bool) -> (r: Result<(), String>)
    requires
        pos.1 > i32::MIN,
    ensures
        built(old(g)@, lever_steps(pos, material, on)) == (final(g)@, refusal(r)),
{
    let ghost plan = lever_steps(pos, material, on);
    let ghost start = g@;
    assert(plan.take(0) =~= Seq::empty());
    put(g, (pos.0, pos.1 - 1, pos.2), Block::Solid(material), Ghost(start), Ghost(plan), Ghost(0))?;
    put(
        g,
        pos,
        Block::Lever { face: Face::Floor, facing: Dir::North, powered: on },
        Ghost(start),
        Ghost(plan),
        Ghost(1),
    )?;
    assert(plan.take(2) =~= plan);
    Ok(())
}

/// A lever and the block it stands on.
pub open spec fn lever_steps(pos: Pos, mat: Material, on: bool) -> Seq<Step> {
    seq![
        Step::Put(moved(pos, 0, -1, 0), Block::Solid(mat)),
        Step::Put(pos, Block::Lever { face: Face::Floor, facing: Dir::North, powered: on }),
    ]
}

/// A lamp driven by adjacent dust, used to display output bits.
pub fn stamp_lamp(g: &mut Grid, pos: Pos) -> (r: Result<(), String>)
    ensures
        built(old(g)@, seq![Step::Put(pos, Block::Lamp { lit: false })]) == (final(g)@, refusal(r)),
{
    let ghost plan = seq![Step::Put(pos, Block::Lamp { lit: false })];
    let ghost start = g@;
    assert(plan.take(0) =~= Seq::empty());
    put(g, pos, Block::Lamp { lit: false }, Ghost(start), Ghost(plan), Ghost(0))?;
    assert(plan.take(1) =~= plan);
    Ok(())
}

// --- staircases --------------------------------------------------------------------

/// The levels of one flight: at most four.
pub open spec fn flight_height(y: int, to_y: int) -> nat {
    if height(y, to_y) < 4 {
        height(y, to_y)
    } else {
        4
    }
}

/// A flat landing of three blocks from `z`; the repeater in its middle restores
/// full strength.
pub open spec fn landing_steps(x: i32, y: int, z: int, step_z: int, mat: Material, since: int) -> Seq<Step> {
    let a = (x, y as i32, (z + step_z) as i32);
    let b = (x, y as i32, (z + 2 * step_z) as i32);
    let c = (x, y as i32, (z + 3 * step_z) as i32);
    let facing = if step_z > 0 {
        Dir::North
    } else {
        Dir::South
    };
    let first = seq![Step::Put(moved(a, 0, -1, 0), Block::Solid(mat)), Step::Put(a, dust())];
    let rest = seq![
        Step::Put(moved(b, 0, -1, 0), Block::Solid(mat)),
        Step::Put(b, repeater(facing)),
        Step::Put(moved(c, 0, -1, 0), Block::Solid(mat)),
        Step::Put(c, dust()),
    ];
    if since + 1 >= MAX_RUN {
        first + seq![Step::Stop(too_long())] + rest
    } else {
        first + rest
    }
}

/// A staircase from `(y, z)` to the level `to_y`: flights, with a landing between
/// each two.
pub open spec fn staged_steps(
    x: i32,
    y: int,
    z: int,
    to_y: int,
    step_z: int,
    mat: Material,
    since: int,
) -> Seq<Step>
    decreases height(y, to_y),
{
    if y == to_y {
        Seq::empty()
    } else {
        let n = flight_height(y, to_y);
        let dy = toward(y, to_y);
        let top = y + dy * n;
        let flight = flight_steps(x, y, z, dy, step_z, mat, since, true, n);
        if top == to_y {
            flight
        } else {
            flight + landing_steps(x, top, z + step_z * n, step_z, mat, since + n) + staged_steps(
                x,
                top,
                z + step_z * n + 3 * step_z,
                to_y,
                step_z,
                mat,
                1,
            )
        }
    }
}

/// How many blocks along Z a staircase of height `h` takes.
pub open spec fn staged_length(h: nat) -> nat {
    if h == 0 {
        0
    } else {
        h + 3 * ((h - 1) as nat / 4)
    }
}

/// The budget at the end of a staircase of height `h`.
pub open spec fn staged_since(h: nat, since: int) -> int {
    if h <= 4 {
        since + h
    } else {
        1 + (h - 1) % 4 + 1
    }
}

/// Lay a landing.
fn landing(
    g: &mut Grid,
    x: i32,
    y: i32,
    z: i32,
    step_z: i32,
    mat: Material,
    budget: &mut Budget,
) -> (r: Result<(), String>)
    requires
        y > i32::MIN,
        i32::MIN <= z + 3 * step_z <= i32::MAX,
        old(budget).since() < i32::MAX,
    ensures
        built(
            old(g)@,
            landing_steps(x, y as int, z as int, step_z as int, mat, old(budget).since()),
        ) == (final(g)@, refusal(r)),
        r is Ok ==> final(budget).since() == 1,
{
    let ghost start = g@;
    let ghost since = budget.since();
    let ghost plan = landing_steps(x, y as int, z as int, step_z as int, mat, since);
    assert(plan.take(0) =~= Seq::empty());
    let a: Pos = (x, y, (z as i64 + step_z as i64) as i32);
    let b: Pos = (x, y, (z as i64 + 2 * step_z as i64) as i32);
    let c: Pos = (x, y, (z as i64 + 3 * step_z as i64) as i32);
    let facing = if step_z > 0 {
        Dir::North
    } else {
        Dir::South
    };
    put(g, (a.0, a.1 - 1, a.2), Block::Solid(mat), Ghost(start), Ghost(plan), Ghost(0))?;
    put(g, a, Block::Dust { power: 0 }, Ghost(start), Ghost(plan), Ghost(1))?;
    match budget.step_no_repeater() {
        Ok(_) => {},
        Err(e) => {
            proof {
                assert(plan.take(3) =~= plan.take(2).push(plan[2]));
                crate::steps::lemma_built_push(start, plan.take(2), plan[2]);
                lemma_built_stops(start, plan, 3);
            }
            return Err(e);
        },
    }
    put(g, (b.0, b.1 - 1, b.2), Block::Solid(mat), Ghost(start), Ghost(plan), Ghost(2))?;
    put(
        g,
        b,
        Block::Repeater { facing, delay: 1, powered: false },
        Ghost(start),
        Ghost(plan),
        Ghost(3),
    )?;
    *budget = Budget::fresh();
    put(g, (c.0, c.1 - 1, c.2), Block::Solid(mat), Ghost(start), Ghost(plan), Ghost(4))?;
    put(g, c, Block::Dust { power: 0 }, Ghost(start), Ghost(plan), Ghost(5))?;
    assert(plan.take(6) =~= plan);
    budget.step_no_repeater()
}

/// The end of a staircase has coordinates that fit.
pub open spec fn staged_fits(y: int, z: int, to_y: int, step_z: int) -> bool {
    &&& i32::MIN < y < i32::MAX
    &&& i32::MIN < to_y < i32::MAX
    &&& i32::MIN <= z <= i32::MAX
    &&& i32::MIN <= z + step_z * staged_length(height(y, to_y)) <= i32::MAX
}

proof fn lemma_staged_step(y: int, z: int, to_y: int, step_z: int)
    requires
        staged_fits(y, z, to_y, step_z),
        y != to_y,
    ensures
        ({
            let n = flight_height(y, to_y) as int;
            let dy = toward(y, to_y);
            let top = y + dy * n;
            let h = height(y, to_y);
            &&& 1 <= n <= 4
            &&& flight_fits(y, z, dy, step_z, n)
            &&& top == to_y <==> h == n
            &&& top == to_y ==> staged_length(h) == n
            &&& top != to_y ==> n == 4 && height(top, to_y) == h - 4 && toward(top, to_y) == dy
                && staged_length(h) == n + 3 + staged_length(height(top, to_y)) && i32::MIN <= z
                + step_z * n + 3 * step_z <= i32::MAX && i32::MIN <= z + step_z * n <= i32::MAX
                && staged_fits(top, z + step_z * n + 3 * step_z, to_y, step_z) && z + step_z * n
                + 3 * step_z + step_z * staged_length(height(top, to_y)) == z + step_z
                * staged_length(h)
        }),
{
    let n = flight_height(y, to_y) as int;
    let dy = toward(y, to_y);
    let top = y + dy * n;
    let h = height(y, to_y);
    assert(dy * n == n || dy * n == -n) by (nonlinear_arith)
        requires
            dy == 1 || dy == -1,
    ;
    let len = staged_length(h) as int;
    assert(n <= len);
    lemma_between(z, step_z, len, n, i32::MIN as int, i32::MAX as int);
    if top != to_y {
        let rest = height(top, to_y);
        assert(rest == h - 4);
        assert(len == 7 + staged_length(rest));
        lemma_between(z, step_z, len, n + 3, i32::MIN as int, i32::MAX as int);
        assert(step_z * (n + 3) == step_z * n + 3 * step_z) by (nonlinear_arith);
        assert(step_z * len == step_z * (n + 3) + step_z * staged_length(rest)) by (nonlinear_arith)
            requires
                len == n + 3 + staged_length(rest),
        ;
    }
}

/// Lay one flight of a staircase, and the landing after it if it is not the last.
/// Returns the level and the Z it finished on.
fn storey(
    g: &mut Grid,
    x: i32,
    y: i32,
    z: i32,
    to_y: i32,
    step_z: i32,
    mat: Material,
    budget: &mut Budget,
) -> (r: Result<(i32, i32), String>)
    requires
        staged_fits(y as int, z as int, to_y as int, step_z as int),
        0 <= old(budget).since() < 0x1000,
        y != to_y,
    ensures
        match r {
            Ok((y2, z2)) => {
                &&& built(
                    old(g)@,
                    staged_steps(x, y as int, z as int, to_y as int, step_z as int, mat, old(budget).since()),
                ) == built(
                    final(g)@,
                    staged_steps(x, y2 as int, z2 as int, to_y as int, step_z as int, mat, final(budget).since()),
                )
                &&& staged_fits(y2 as int, z2 as int, to_y as int, step_z as int)
                &&& 0 <= final(budget).since() < 0x1000
                &&& height(y2 as int, to_y as int) < height(y as int, to_y as int)
                &&& z2 + step_z * staged_length(height(y2 as int, to_y as int)) == z + step_z
                    * staged_length(height(y as int, to_y as int))
                &&& staged_since(height(y2 as int, to_y as int), final(budget).since())
                    == staged_since(height(y as int, to_y as int), old(budget).since())
            },
            Err(m) => built(
                old(g)@,
                staged_steps(x, y as int, z as int, to_y as int, step_z as int, mat, old(budget).since()),
            ) == (final(g)@, Some(m@)),
        },
{
    let left: u32 = distance(y, to_y);
    let n: u32 = if left < 4 {
        left
    } else {
        4
    };
    let dy: i32 = if to_y > y {
        1
    } else {
        -1
    };
    let ghost g0 = g@;
    let ghost since = budget.since();
    let ghost climb = flight_steps(x, y as int, z as int, dy as int, step_z as int, mat, since, true, n as nat);
    let ghost top = y + dy * n;
    let ghost flat = landing_steps(x, top, z + step_z * n, step_z as int, mat, since + n);
    let ghost more = staged_steps(x, top, z + step_z * n + 3 * step_z, to_y as int, step_z as int, mat, 1);
    proof {
        lemma_staged_step(y as int, z as int, to_y as int, step_z as int);
        lemma_built_join(g0, climb + flat, more);
        lemma_built_join(g0, climb, flat);
        assert(flight_reach(n as int, since) == n);
    }
    flight(g, x, y, z, dy, step_z, n, mat, budget, true)?;
    proof {
        assert(-0x1_0000_0000_00 < step_z * n < 0x1_0000_0000_00) by (nonlinear_arith)
            requires
                0 <= n <= 13,
                i32::MIN <= step_z <= i32::MAX,
        ;
        assert(dy * n == n || dy * n == -n) by (nonlinear_arith)
            requires
                dy == 1 || dy == -1,
        ;
        assert(step_z * 0 == 0);
    }
    let climbed: i32 = dy * n as i32;
    let advance: i64 = step_z as i64 * n as i64;
    let y2: i32 = y + climbed;
    let z2: i32 = (z as i64 + advance) as i32;
    if y2 == to_y {
        return Ok((y2, z2));
    }
    landing(g, x, y2, z2, step_z, mat, budget)?;
    Ok((y2, (z2 as i64 + 3 * step_z as i64) as i32))
}

/// Climb or descend to `to_y`, pausing on flat landings so the signal can be
/// refreshed. Returns the Z the staircase finished on.
///
/// A plain ramp cannot carry a repeater - a repeater needs the blocks either
/// side of it level - so a tall ramp spends its whole signal budget on height
/// and dies. Breaking the climb into short flights with a flat landing between
/// them gives each landing somewhere to put a repeater, which is the same
/// staircase the main layout uses for deep drops.
pub fn ramp_staged(
    g: &mut Grid,
    x: i32,
    from: (i32, i32),
    to_y: i32,
    step_z: i32,
    mat: Material,
    budget: &mut Budget,
) -> (r: Result<i32, String>)
    requires
        staged_fits(from.0 as int, from.1 as int, to_y as int, step_z as int),
        0 <= old(budget).since() < 0x1000,
    ensures
        built(
            old(g)@,
            staged_steps(
                x,
                from.0 as int,
                from.1 as int,
                to_y as int,
                step_z as int,
                mat,
                old(budget).since(),
            ),
        ) == (final(g)@, refusal(r)),
        match r {
            Ok(z) => {
                &&& z == from.1 + step_z * staged_length(height(from.0 as int, to_y as int))
                &&& final(budget).since() == staged_since(
                    height(from.0 as int, to_y as int),
                    old(budget).since(),
                )
            },
            Err(_) => true,
        },
{
    let mut y: i32 = from.0;
    let mut z: i32 = from.1;
    let ghost plan = staged_steps(x, y as int, z as int, to_y as int, step_z as int, mat, budget.since());
    while y != to_y
        invariant
            staged_fits(y as int, z as int, to_y as int, step_z as int),
            0 <= budget.since() < 0x1000,
            plan == staged_steps(
                x,
                from.0 as int,
                from.1 as int,
                to_y as int,
                step_z as int,
                mat,
                old(budget).since(),
            ),
            built(old(g)@, plan) == built(
                g@,
                staged_steps(x, y as int, z as int, to_y as int, step_z as int, mat, budget.since()),
            ),
            z + step_z * staged_length(height(y as int, to_y as int)) == from.1 + step_z
                * staged_length(height(from.0 as int, to_y as int)),
            staged_since(height(y as int, to_y as int), budget.since()) == staged_since(
                height(from.0 as int, to_y as int),
                old(budget).since(),
            ),
        decreases height(y as int, to_y as int),
    {
        let (y2, z2) = storey(g, x, y, z, to_y, step_z, mat, budget)?;
        y = y2;
        z = z2;
    }
    assert(step_z * 0 == 0);
    Ok(z)
}

// --- links -------------------------------------------------------------------------

/// Wire one cell's output to another cell's input feed.
///
/// Every such link starts by climbing a level, because a gate's output plane
/// sits one below its input plane (see [`plane`]). Stages are therefore placed
/// at increasing Z so the ramp has somewhere to go.
pub fn link(g: &mut Grid, from_out: Pos, to_feed: Pos, mat: Material) -> (r: Result<(), String>)
    requires
        in_world(from_out),
        in_world(to_feed),
    ensures
        built(old(g)@, link_steps(from_out, to_feed, to_feed.1, None, mat)) == (
            final(g)@,
            refusal(r),
        ),
{
    link_at(g, from_out, to_feed, to_feed.1, mat)
}

/// Wire an output to a feed, carrying the signal over on its own Y plane.
///
/// Routing every link in the feed plane does not work once two of them converge
/// on the same cell: one link's vertical segment occupies a column across many
/// Z values, and the other's horizontal run crosses it. Giving each link a
/// private lane height means crossings pass over one another, which is the only
/// way a single wire plane can be avoided - and the same conclusion the main
/// router reached.
pub fn link_at(g: &mut Grid, from_out: Pos, to_feed: Pos, lane_y: i32, mat: Material) -> (r: Result<
    (),
    String,
>)
    requires
        in_world(from_out),
        in_world(to_feed),
        -0x1001_0000 <= lane_y <= 0x1001_0000,
    ensures
        built(old(g)@, link_steps(from_out, to_feed, lane_y, None, mat)) == (final(g)@, refusal(r)),
{
    link_via(g, from_out, to_feed, lane_y, None, mat)
}

/// How far along Z a descent from `lane_y` to `to_y` reaches back: the staircase
/// and a landing before it.
pub open spec fn descent(lane_y: int, to_y: int) -> int {
    if lane_y >= to_y {
        staged_length((lane_y - to_y) as nat) as int + 3
    } else {
        lane_y - to_y + 3
    }
}

pub open spec fn no_room_text(from: Pos, to: Pos, lane_y: i32) -> Seq<char> {
    "link from "@ + pos_label(from) + " to "@ + pos_label(to) + " on lane y="@ + signed(
        lane_y as int,
    ) + " has no room to descend"@
}

pub open spec fn missed_text(end: int, land_at: int) -> Seq<char> {
    "descent landed at z="@ + signed(end) + ", wanted "@ + signed(land_at)
}

/// The landing before a descent: a repeater between two dusts, so the descent
/// starts with the whole budget.
pub open spec fn turn_steps(x: i32, y: i32, z: int, mat: Material) -> Seq<Step> {
    let a = (x, y, (z + 1) as i32);
    let b = (x, y, (z + 2) as i32);
    let c = (x, y, (z + 3) as i32);
    seq![
        Step::Put(moved(a, 0, -1, 0), Block::Solid(mat)),
        Step::Put(a, dust()),
        Step::Put(moved(b, 0, -1, 0), Block::Solid(mat)),
        Step::Put(b, repeater(Dir::North)),
        Step::Put(moved(c, 0, -1, 0), Block::Solid(mat)),
        Step::Put(c, dust()),
    ]
}

/// A link: climb to the lane, cross, turn, descend, and approach the feed.
pub open spec fn link_steps(
    from: Pos,
    to: Pos,
    lane_y: i32,
    descend_by: Option<i32>,
    mat: Material,
) -> Seq<Step> {
    let climb = height(from.1 as int, lane_y as int);
    let z1 = from.2 + staged_length(climb);
    let s1 = staged_since(climb, 0);
    let land_at = match descend_by {
        Some(z) => z as int,
        None => to.2 as int,
    };
    let turn = land_at - descent(lane_y as int, to.1 as int);
    staged_steps(from.0, from.1 as int, from.2 as int, lane_y as int, 1, mat, 0) + run_x_steps(
        lane_y,
        z1 as i32,
        from.0,
        to.0,
        mat,
        s1,
    ) + if turn < z1 {
        seq![Step::Stop(no_room_text(from, to, lane_y))]
    } else {
        run_z_steps(lane_y, to.0, z1 as i32, turn as i32, mat, run_end(from.0, to.0, s1)) + descent_steps(
            to,
            lane_y,
            turn,
            land_at,
            mat,
        )
    }
}

/// The second half of a link: turn at `turn`, descend onto the feed's level, and
/// approach the feed.
pub open spec fn descent_steps(to: Pos, lane_y: i32, turn: int, land_at: int, mat: Material) -> Seq<Step> {
    let drop = height(lane_y as int, to.1 as int);
    let end = turn + 3 + staged_length(drop);
    turn_steps(to.0, lane_y, turn, mat) + staged_steps(
        to.0,
        lane_y as int,
        turn + 3,
        to.1 as int,
        1,
        mat,
        0,
    ) + if end != land_at {
        seq![Step::Stop(missed_text(end, land_at))]
    } else {
        run_z_steps(to.1, to.0, end as i32, to.2, mat, staged_since(drop, 0))
    }
}

fn turn(g: &mut Grid, x: i32, y: i32, z: i32, mat: Material) -> (r: Result<(), String>)
    requires
        y > i32::MIN,
        z + 3 <= i32::MAX,
    ensures
        built(old(g)@, turn_steps(x, y, z as int, mat)) == (final(g)@, refusal(r)),
{
    let ghost start = g@;
    let ghost plan = turn_steps(x, y, z as int, mat);
    assert(plan.take(0) =~= Seq::empty());
    put(g, (x, y - 1, z + 1), Block::Solid(mat), Ghost(start), Ghost(plan), Ghost(0))?;
    put(g, (x, y, z + 1), Block::Dust { power: 0 }, Ghost(start), Ghost(plan), Ghost(1))?;
    put(g, (x, y - 1, z + 2), Block::Solid(mat), Ghost(start), Ghost(plan), Ghost(2))?;
    put(
        g,
        (x, y, z + 2),
        Block::Repeater { facing: Dir::North, delay: 1, powered: false },
        Ghost(start),
        Ghost(plan),
        Ghost(3),
    )?;
    put(g, (x, y - 1, z + 3), Block::Solid(mat), Ghost(start), Ghost(plan), Ghost(4))?;
    put(g, (x, y, z + 3), Block::Dust { power: 0 }, Ghost(start), Ghost(plan), Ghost(5))?;
    assert(plan.take(6) =~= plan);
    Ok(())
}

proof fn lemma_stop(cells: Map<Pos, Block>, m: Seq<char>)
    ensures
        built(cells, seq![Step::Stop(m)]) == (cells, Some(m)),
{
    let plan = seq![Step::Stop(m)];
    assert(plan.drop_last() =~= Seq::empty());
    assert(built(cells, plan.drop_last()) == (cells, None::<Seq<char>>));
}

fn no_room(from: Pos, to: Pos, lane_y: i32) -> (s: String)
    ensures
        s@ == no_room_text(from, to, lane_y),
{
    let mut s = String::from_str("link from ");
    push_pos(&mut s, from);
    s.append(" to ");
    push_pos(&mut s, to);
    s.append(" on lane y=");
    push_signed(&mut s, lane_y as i64);
    s.append(" has no room to descend");
    s
}

fn missed(end: i32, land_at: i32) -> (s: String)
    ensures
        s@ == missed_text(end as int, land_at as int),
{
    let mut s = String::from_str("descent landed at z=");
    push_signed(&mut s, end as i64);
    s.append(", wanted ");
    push_signed(&mut s, land_at as i64);
    s
}

fn descend(g: &mut Grid, to: Pos, lane_y: i32, z_turn: i32, land_at: i32, mat: Material) -> (r: Result<(), String>)
    requires
        in_world(to),
        -0x1001_0000 <= lane_y <= 0x1001_0000,
        -0x6000_0000 <= z_turn <= 0x4000_0000,
    ensures
        built(old(g)@, descent_steps(to, lane_y, z_turn as int, land_at as int, mat)) == (
            final(g)@,
            refusal(r),
        ),
{
    let ghost drop = height(lane_y as int, to.1 as int);
    let ghost end = z_turn + 3 + staged_length(drop);
    let ghost a = turn_steps(to.0, lane_y, z_turn as int, mat);
    let ghost b = staged_steps(to.0, lane_y as int, z_turn + 3, to.1 as int, 1, mat, 0);
    let ghost c = if end != land_at {
        seq![Step::Stop(missed_text(end, land_at as int))]
    } else {
        run_z_steps(to.1, to.0, end as i32, to.2, mat, staged_since(drop, 0))
    };
    proof {
        lemma_built_join(g@, a + b, c);
        lemma_built_join(g@, a, b);
        assert(1 * staged_length(drop) == staged_length(drop));
    }
    // Landing: refresh so the descent starts with the whole budget.
    turn(g, to.0, lane_y, z_turn, mat)?;
    let mut bud = Budget::fresh();
    let end: i32 = ramp_staged(g, to.0, (lane_y, z_turn + 3), to.1, 1, mat, &mut bud)?;
    if end != land_at {
        proof {
            lemma_stop(g@, missed_text(end as int, land_at as int));
        }
        return Err(missed(end, land_at));
    }
    // Flat approach along the feed plane.
    run_z(g, to.1, to.0, end, to.2, mat, &mut bud)
}

/// As [`link_at`], but descending at a chosen Z rather than as late as possible.
///
/// Descending directly onto a feed means dropping through whatever sits above
/// it, and above a macro's feed is that macro's own internal wiring. Coming
/// down early - in the clear gap between macros - and then approaching the feed
/// horizontally avoids the body entirely. Feeds are built to be entered from the
/// north, so a flat approach is what they expect.
pub fn link_via(
    g: &mut Grid,
    from_out: Pos,
    to_feed: Pos,
    lane_y: i32,
    descend_by: Option<i32>,
    mat: Material,
) -> (r: Result<(), String>)
    requires
        in_world(from_out),
        in_world(to_feed),
        -0x1001_0000 <= lane_y <= 0x1001_0000,
        match descend_by {
            Some(z) => -0x1001_0000 <= z <= 0x1001_0000,
            None => true,
        },
    ensures
        built(old(g)@, link_steps(from_out, to_feed, lane_y, descend_by, mat)) == (
            final(g)@,
            refusal(r),
        ),
{
    let ghost climb = height(from_out.1 as int, lane_y as int);
    let ghost at = from_out.2 + staged_length(climb);
    let ghost s1 = staged_since(climb, 0);
    // Land by `descend_by` when given, so the drop happens in open ground and
    // the last stretch into the feed is flat.
    let land_at: i32 = match descend_by {
        Some(z) => z,
        None => to_feed.2,
    };
    // A staircase costs its height plus a landing between each flight, and it
    // must start on a full budget - a flight cannot refresh mid-climb. So the
    // descent is preceded by an explicit landing, which keeps the cost a pure
    // function of the height and therefore predictable enough to work backwards
    // from the target.
    let h: i32 = lane_y - to_feed.1;
    let drop: i32 = if h >= 1 {
        h + 3 * ((h - 1) / 4) + 3
    } else {
        h + 3
    };
    assert(drop == descent(lane_y as int, to_feed.1 as int));
    let z_turn: i32 = land_at - drop;
    let ghost a = staged_steps(from_out.0, from_out.1 as int, from_out.2 as int, lane_y as int, 1, mat, 0);
    let ghost b = run_x_steps(lane_y, at as i32, from_out.0, to_feed.0, mat, s1);
    let ghost c = run_z_steps(lane_y, to_feed.0, at as i32, z_turn, mat, run_end(from_out.0, to_feed.0, s1));
    let ghost d = descent_steps(to_feed, lane_y, z_turn as int, land_at as int, mat);
    let ghost rest = if z_turn < at {
        seq![Step::Stop(no_room_text(from_out, to_feed, lane_y))]
    } else {
        c + d
    };
    proof {
        lemma_built_join(g@, a + b, rest);
        lemma_built_join(g@, a, b);
        assert(1 * staged_length(climb) == staged_length(climb));
    }
    let mut bud = Budget::fresh();
    // Climb to the lane, cross, then descend onto the feed. The descent has to
    // begin far enough back in Z to land exactly on the feed, since dust drops
    // one level per block travelled.
    let z1: i32 = ramp_staged(g, from_out.0, (from_out.1, from_out.2), lane_y, 1, mat, &mut bud)?;
    run_x(g, lane_y, z1, from_out.0, to_feed.0, mat, &mut bud)?;
    if z_turn < z1 {
        proof {
            lemma_stop(g@, no_room_text(from_out, to_feed, lane_y));
        }
        return Err(no_room(from_out, to_feed, lane_y));
    }
    proof {
        lemma_built_join(g@, c, d);
        lemma_run_since(run_length(from_out.0, to_feed.0), s1, run_length(from_out.0, to_feed.0));
    }
    run_z(g, lane_y, to_feed.0, z1, z_turn, mat, &mut bud)?;
    descend(g, to_feed, lane_y, z_turn, land_at, mat)
}

// --- spines --------------------------------------------------------------------------

/// Extend a cell's output into a short spine of dust, so several links can
/// leave it from different points.
///
/// A cell's output is a single dust block, and two links starting there would
/// both ramp out of the same cell and overlap. Giving the output a spine is the
/// same answer the main router uses for high-fanout drivers: several places to
/// leave from rather than one.
pub fn stamp_out_spine(g: &mut Grid, out: Pos, len: i32, mat: Material) -> (r: Result<Vec<Pos>, String>)
    requires
        in_world(out),
        len <= 0x1000_0000,
    ensures
        built(old(g)@, spine_steps(out, Dir::South, mat, spine_len(len as int))) == (
            final(g)@,
            refusal(r),
        ),
        match r {
            Ok(cells) => cells@ == spine_cells(out, Dir::South, spine_len(len as int)),
            Err(_) => true,
        },
{
    stamp_out_spine_dir(g, out, len, (0, 1), mat)
}

pub open spec fn spine_len(len: int) -> nat {
    if len < 0 {
        0
    } else {
        len as nat
    }
}

/// The output and the cells of its spine.
pub open spec fn spine_cells(out: Pos, d: Dir, len: nat) -> Seq<Pos> {
    Seq::new(len + 1, |i: int| along(out, d, i))
}

/// The first `n` blocks of a spine. The first is a repeater, so that every tap
/// starts from full strength; it faces back towards the output.
pub open spec fn spine_steps(out: Pos, d: Dir, mat: Material, n: nat) -> Seq<Step>
    decreases n,
{
    if n == 0 {
        Seq::empty()
    } else {
        let at = along(out, d, n as int);
        spine_steps(out, d, mat, (n - 1) as nat) + seq![
            Step::Put(moved(at, 0, -1, 0), Block::Solid(mat)),
            Step::Put(
                at,
                if n == 1 {
                    repeater(opposite_of(d))
                } else {
                    dust()
                },
            ),
        ]
    }
}

proof fn lemma_spine_prefix(out: Pos, d: Dir, mat: Material, n: nat, m: nat)
    requires
        n <= m,
    ensures
        spine_steps(out, d, mat, n).len() == 2 * n,
        spine_steps(out, d, mat, m).len() == 2 * m,
        spine_steps(out, d, mat, m).take(2 * n as int) == spine_steps(out, d, mat, n),
    decreases m,
{
    if n == m {
        if m > 0 {
            lemma_spine_prefix(out, d, mat, (n - 1) as nat, (m - 1) as nat);
        }
        assert(spine_steps(out, d, mat, m).take(2 * n as int) =~= spine_steps(out, d, mat, n));
    } else {
        lemma_spine_prefix(out, d, mat, n, (m - 1) as nat);
        let most = spine_steps(out, d, mat, (m - 1) as nat);
        assert(spine_steps(out, d, mat, m).take(2 * n as int) =~= most.take(2 * n as int));
    }
}

/// The direction of `(dx, dz)`, if it is one of the four.
pub open spec fn axis_dir(dir: (i32, i32)) -> Option<Dir> {
    if dir == (1i32, 0i32) {
        Some(Dir::East)
    } else if dir == (-1i32, 0i32) {
        Some(Dir::West)
    } else if dir == (0i32, 1i32) {
        Some(Dir::South)
    } else if dir == (0i32, -1i32) {
        Some(Dir::North)
    } else {
        None
    }
}

pub open spec fn bad_axis_text(dir: (i32, i32)) -> Seq<char> {
    "spine direction ("@ + signed(dir.0 as int) + ", "@ + signed(dir.1 as int)
        + ") is not axis-aligned"@
}

fn bad_axis(dir: (i32, i32)) -> (s: String)
    ensures
        s@ == bad_axis_text(dir),
{
    let mut s = String::from_str("spine direction (");
    push_signed(&mut s, dir.0 as i64);
    s.append(", ");
    push_signed(&mut s, dir.1 as i64);
    s.append(") is not axis-aligned");
    s
}

/// A spine running in a chosen direction, given as `(dx, dz)`.
///
/// Direction matters: an RS latch's `q` has its own return wiring immediately
/// behind it in Z, so a spine extended that way collides with the macro that
/// produced it. Sideways is clear.
pub fn stamp_out_spine_dir(
    g: &mut Grid,
    out: Pos,
    len: i32,
    dir: (i32, i32),
    mat: Material,
) -> (r: Result<Vec<Pos>, String>)
    requires
        in_world(out),
        len <= 0x1000_0000,
    ensures
        match axis_dir(dir) {
            Some(d) => {
                &&& built(old(g)@, spine_steps(out, d, mat, spine_len(len as int))) == (
                    final(g)@,
                    refusal(r),
                )
                &&& match r {
                    Ok(cells) => cells@ == spine_cells(out, d, spine_len(len as int)),
                    Err(_) => true,
                }
            },
            None => final(g)@ == old(g)@ && refusal(r) == Some(bad_axis_text(dir)),
        },
{
    let d = if dir.0 == 1 && dir.1 == 0 {
        Dir::East
    } else if dir.0 == -1 && dir.1 == 0 {
        Dir::West
    } else if dir.0 == 0 && dir.1 == 1 {
        Dir::South
    } else if dir.0 == 0 && dir.1 == -1 {
        Dir::North
    } else {
        return Err(bad_axis(dir));
    };
    // A repeater outputs opposite the side it faces, so it must face *back*
    // along the spine towards its input.
    let facing = d.opposite();
    let n: i32 = if len < 0 {
        0
    } else {
        len
    };
    let ghost start = g@;
    let ghost plan = spine_steps(out, d, mat, n as nat);
    let mut cells: Vec<Pos> = Vec::new();
    cells.push(out);
    proof {
        lemma_spine_prefix(out, d, mat, 0, n as nat);
        assert(plan.take(0) =~= Seq::empty());
        assert(cells@ =~= spine_cells(out, d, 0));
    }
    for i in 0..n
        invariant
            start == old(g)@,
            in_world(out),
            0 <= n <= 0x1000_0000,
            n == spine_len(len as int),
            axis_dir(dir) == Some(d),
            facing == opposite_of(d),
            plan == spine_steps(out, d, mat, n as nat),
            plan.len() == 2 * n,
            built(start, plan.take(2 * i as int)) == (g@, None::<Seq<char>>),
            cells@ == spine_cells(out, d, i as nat),
    {
        let k: i32 = i + 1;
        let p: Pos = match d {
            Dir::North => (out.0, out.1, out.2 - k),
            Dir::South => (out.0, out.1, out.2 + k),
            Dir::West => (out.0 - k, out.1, out.2),
            Dir::East => (out.0 + k, out.1, out.2),
        };
        proof {
            assert(p == along(out, d, k as int));
            lemma_spine_prefix(out, d, mat, k as nat, n as nat);
            lemma_spine_prefix(out, d, mat, i as nat, n as nat);
            let part = spine_steps(out, d, mat, k as nat);
            assert(plan.take(2 * k as int)[2 * i as int] == part[2 * i as int]);
            assert(plan.take(2 * k as int)[2 * i + 1] == part[2 * i + 1]);
        }
        put(g, (p.0, p.1 - 1, p.2), Block::Solid(mat), Ghost(start), Ghost(plan), Ghost(2 * i as int))?;
        let b = if i == 0 {
            Block::Repeater { facing, delay: 1, powered: false }
        } else {
            Block::Dust { power: 0 }
        };
        put(g, p, b, Ghost(start), Ghost(plan), Ghost(2 * i + 1))?;
        cells.push(p);
        assert(cells@ =~= spine_cells(out, d, k as nat));
    }
    assert(plan.take(2 * n as int) =~= plan);
    Ok(cells)
}

// --- the RS latch ----------------------------------------------------------------------

/// The cells with every repeater that was not one before switched on.
pub open spec fn switched_on(before: Map<Pos, Block>, after: Map<Pos, Block>) -> Map<Pos, Block> {
    Map::new(
        |p: Pos| after.contains_key(p),
        |p: Pos|
            match after[p] {
                Block::Repeater { facing, delay, .. } => if block_at(before, p) is Repeater {
                    after[p]
                } else {
                    Block::Repeater { facing, delay, powered: true }
                },
                b => b,
            },
    )
}

/// The positions of the repeaters.
fn repeaters(g: &Grid) -> (r: PosMap<bool>)
    ensures
        forall|p: Pos| #[trigger] r@.contains_key(p) <==> block_at(g@, p) is Repeater,
{
    let cells = g.iter();
    let mut r: PosMap<bool> = PosMap::new();
    for i in 0..cells.len()
        invariant
            forall|j: int|
                0 <= j < cells@.len() ==> g@.contains_key((#[trigger] cells@[j]).0) && cells@[j].1
                    == g@[cells@[j].0],
            forall|p: Pos| #[trigger]
                r@.contains_key(p) ==> block_at(g@, p) is Repeater,
            forall|j: int|
                0 <= j < i && (#[trigger] cells@[j]).1 is Repeater ==> r@.contains_key(cells@[j].0),
    {
        let (p, b) = cells[i];
        assert(g@.contains_key(cells@[i as int].0));
        match b {
            Block::Repeater { .. } => {
                r.insert(p, true);
            },
            _ => {},
        }
    }
    proof {
        assert forall|p: Pos| block_at(g@, p) is Repeater implies #[trigger] r@.contains_key(p) by {
            assert(g@.contains_key(p));
            let j = choose|j: int| 0 <= j < cells@.len() && cells@[j] == (p, block_at(g@, p));
            assert(cells@[j].1 is Repeater);
        }
    }
    r
}

/// Switch on every repeater that is not in `before`.
fn switch_on(g: &mut Grid, before: &PosMap<bool>, Ghost(old_cells): Ghost<Map<Pos, Block>>)
    requires
        forall|p: Pos| #[trigger] before@.contains_key(p) <==> block_at(old_cells, p) is Repeater,
    ensures
        final(g)@ == switched_on(old_cells, old(g)@),
{
    let cells = g.iter();
    let ghost start = g@;
    let ghost goal = switched_on(old_cells, start);
    let ghost mut done: Set<Pos> = Set::empty();
    for i in 0..cells.len()
        invariant
            forall|p: Pos| #[trigger] before@.contains_key(p) <==> block_at(old_cells, p) is Repeater,
            goal == switched_on(old_cells, start),
            forall|j: int|
                0 <= j < cells@.len() ==> start.contains_key((#[trigger] cells@[j]).0)
                    && cells@[j].1 == start[cells@[j].0],
            forall|j: int| 0 <= j < i ==> done.contains((#[trigger] cells@[j]).0),
            forall|p: Pos| #[trigger] g@.contains_key(p) <==> start.contains_key(p),
            forall|p: Pos| #[trigger]
                g@.contains_key(p) ==> g@[p] == if done.contains(p) {
                    goal[p]
                } else {
                    start[p]
                },
            forall|p: Pos| #[trigger] done.contains(p) ==> start.contains_key(p),
    {
        let (p, b) = cells[i];
        assert(start.contains_key(cells@[i as int].0));
        match b {
            Block::Repeater { facing, delay, .. } => {
                if !before.contains(p) {
                    g.force(p, Block::Repeater { facing, delay, powered: true });
                }
            },
            _ => {},
        }
        proof {
            done = done.insert(p);
        }
    }
    proof {
        assert forall|p: Pos| #[trigger] start.contains_key(p) implies done.contains(p) by {
            let j = choose|j: int| 0 <= j < cells@.len() && cells@[j] == (p, block_at(start, p));
            assert(done.contains(cells@[j].0));
        }
        assert(g@ =~= goal);
    }
}

/// The two cells of an RS latch, and where they stand.
pub open spec fn latch_b(base: Pos) -> Pos {
    moved(base, 6, 0, 8)
}

/// The loop's way back, in a private column west of both cells.
pub open spec fn return_steps(base: Pos) -> Seq<Step> {
    let out = nor_out(latch_b(base));
    let feed = nor_feeds(base, 2)[0];
    let y = (base.1 + 1) as i32;
    let zb = (out.2 + 1) as i32;
    let ret = (base.0 - 3) as i32;
    let s1 = run_end(out.0, ret, 1);
    let s2 = run_end(zb, feed.2, s1);
    flight_steps(out.0, base.1 as int, out.2 as int, 1, 1, Material::Gate, 0, false, 1) + run_x_steps(
        y,
        zb,
        out.0,
        ret,
        Material::Gate,
        1,
    ) + run_z_steps(y, ret, zb, feed.2, Material::Gate, s1) + run_x_steps(
        y,
        feed.2,
        ret,
        feed.0,
        Material::Gate,
        s2,
    )
}

/// The two cells in the state that the loop starts in: B's torch dark, and the
/// repeater that relays A's output to B on.
pub open spec fn latch_started(cells: Map<Pos, Block>, base: Pos) -> Map<Pos, Block> {
    let b = latch_b(base);
    cells.insert(moved(b, 0, 0, 1), Block::WallTorch { facing: Dir::South, lit: false }).insert(
        moved(b, 0, 1, -1),
        Block::Repeater { facing: Dir::North, delay: 1, powered: true },
    )
}

/// An RS latch: two cells, started, linked forwards with the repeaters on the way
/// on, and linked back.
pub open spec fn latch_built(cells: Map<Pos, Block>, base: Pos) -> (Map<Pos, Block>, Option<Seq<char>>) {
    let two = built(cells, nor_steps(base, 2) + nor_steps(latch_b(base), 3));
    if two.1 is Some {
        two
    } else {
        let started = latch_started(two.0, base);
        let feed = nor_feeds(latch_b(base), 3)[0];
        let linked = built(started, link_steps(nor_out(base), feed, feed.1, None, Material::Gate));
        if linked.1 is Some {
            linked
        } else {
            built(switched_on(started, linked.0), return_steps(base))
        }
    }
}

/// A cross-coupled NOR latch: the memory element every flip-flop is built from.
///
/// Two NOR cells, each feeding the other's input. Raise one input and that
/// torch goes out, releasing the other, which then holds itself lit through the
/// cross-coupling. The latch remembers which input was raised last.
///
/// This is the first structure in the compiler with feedback, and the router
/// cannot express it: levelisation assumes a DAG and a cycle has no levels. So
/// the wiring is hand-placed and the whole thing is handed to the placer as an
/// opaque macro - the way a standard-cell library ships a flip-flop rather than
/// asking a router to build one.
///
/// The two cells are offset in Z as well as X. Side by side, each one's feedback
/// wire runs straight through the other's output dust; separate Z bands give the
/// forward link clear space, and the return link gets its own column to the west.
///
/// # Asynchronous clear
///
/// B takes a third fan-in used as `CLR`. Q is B's output and B is a NOR, so
/// raising CLR pulls Q low no matter what the feedback loop is doing, and the
/// loop re-settles cleared when CLR drops. That is the only way to put this
/// latch into a known state in the real game: the initial `lit=`/`powered=`
/// chosen at stamp time does survive export, but a `.mcfunction` places blocks
/// one `setblock` at a time and Minecraft re-evaluates every torch and repeater
/// as its neighbours appear, so the built circuit settles into whatever state
/// the placement order produces rather than the one that was picked. State has to
/// be driven in after construction, not born in.
///
/// Returns `(set_feed, reset_feed, clr_feed, q, q_not)`.
pub fn stamp_rs_latch(g: &mut Grid, base: Pos) -> (r: Result<(Pos, Pos, Pos, Pos, Pos), String>)
    requires
        crate::deep::within(base, 0x1000_1000),
    ensures
        latch_built(old(g)@, base) == (final(g)@, refusal(r)),
        match r {
            Ok((set, reset, clr, q, q_not)) => {
                &&& set == nor_feeds(base, 2)[1]
                &&& reset == nor_feeds(latch_b(base), 3)[1]
                &&& clr == nor_feeds(latch_b(base), 3)[2]
                &&& q == nor_out(latch_b(base))
                &&& q_not == nor_out(base)
            },
            Err(_) => true,
        },
{
    let (x, y, z) = base;
    let ghost start = g@;
    proof {
        lemma_built_join(start, nor_steps(base, 2), nor_steps(latch_b(base), 3));
    }
    // Fan-in two, not one: each NOR takes the cross-coupled feedback on one
    // input and the external set/reset on the other. With a single input the
    // feedback and the external drive land on the same wire, shorted together,
    // and the latch degenerates into a follower that cannot hold anything.
    let a = stamp_nor(g, (x, y, z), 2)?;
    // B gets a third input: the asynchronous clear. See the doc comment.
    let b = stamp_nor(g, (x + 6, y, z + 8), 3)?;

    // Start the loop in a state that is consistent all the way round, not just
    // at the torches.
    //
    // Both torches are stamped lit, which a cross-coupled pair cannot be, so B
    // starts dark to pick a winner. But that alone is not enough: the repeaters
    // carrying the loop also hold state, and they start unpowered. An output
    // stamped high and the repeater relaying it starting low is an
    // inconsistency, and it launches a one-tick pulse. In a loop with two
    // inversions - non-inverting overall - that pulse circulates until the
    // torches burn out.
    g.force(
        (x + 6, y + plane::SUPPORT, z + 9),
        Block::WallTorch { facing: Dir::South, lit: false },
    );
    // A drives high, so the repeater feeding B's loop input starts powered.
    g.force(
        (b.feeds[0].0, b.feeds[0].1, b.feeds[0].2 + 1),
        Block::Repeater { facing: Dir::North, delay: 1, powered: true },
    );
    let ghost started = g@;
    // A -> B. A drives high at rest, so every repeater on the way must start
    // powered too; the link inserts its own, so they are found by comparing.
    let before = repeaters(g);
    link(g, a.out, b.feeds[0], Material::Gate)?;
    switch_on(g, &before, Ghost(started));
    // B -> A, returning in a private column west of both cells.
    let ret: i32 = x - 3;
    let ghost here = g@;
    let ghost zb = (b.out.2 + 1) as i32;
    let ghost feed = a.feeds@[0];
    let ghost s1 = run_end(b.out.0, ret, 1);
    let ghost s2 = run_end(zb, feed.2, s1);
    let ghost p1 = flight_steps(b.out.0, y as int, b.out.2 as int, 1, 1, Material::Gate, 0, false, 1);
    let ghost p2 = run_x_steps((y + 1) as i32, zb, b.out.0, ret, Material::Gate, 1);
    let ghost p3 = run_z_steps((y + 1) as i32, ret, zb, feed.2, Material::Gate, s1);
    let ghost p4 = run_x_steps((y + 1) as i32, feed.2, ret, feed.0, Material::Gate, s2);
    proof {
        lemma_built_join(here, p1 + p2 + p3, p4);
        lemma_built_join(here, p1 + p2, p3);
        lemma_built_join(here, p1, p2);
        lemma_run_since(run_length(b.out.0, ret), 1, run_length(b.out.0, ret));
        lemma_run_since(run_length(zb, feed.2), s1, run_length(zb, feed.2));
    }
    let mut bud = Budget::fresh();
    let zb: i32 = ramp_z(
        g,
        b.out.0,
        (y + plane::OUT, b.out.2),
        y + plane::IN,
        1,
        Material::Gate,
        &mut bud,
    )?;
    run_x(g, y + plane::IN, zb, b.out.0, ret, Material::Gate, &mut bud)?;
    run_z(g, y + plane::IN, ret, zb, a.feeds[0].2, Material::Gate, &mut bud)?;
    run_x(g, y + plane::IN, a.feeds[0].2, ret, a.feeds[0].0, Material::Gate, &mut bud)?;

    // The *second* feed of each cell is the external input; the first carries
    // the loop.
    //
    // Q is B's output, not A's. Asserting the external input of a cross-coupled
    // NOR drives *that cell's* output low, so the cell fed by S produces !Q. A
    // is the cell fed by S, therefore Q = B.
    Ok((a.feeds[1], b.feeds[1], b.feeds[2], b.out, a.out))
}

} // verus!
