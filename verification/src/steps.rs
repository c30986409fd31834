//! Building step by step: sequences of placements that stop at the first one that
//! is refused.
use crate::world::{block_at, collision_text, fits_at, opaque_block, Block, Grid, Pos};
use vstd::prelude::*;

verus! {

/// One step of a construction.
pub enum Step {
    /// Place a block, which is refused over a different block.
    Put(Pos, Block),
    /// Go on only where the block is not opaque; otherwise stop with a message.
    Open(Pos, Seq<char>),
    /// Stop with a message.
    Stop(Seq<char>),
}

/// The cells after a step, and the message it stopped with if it did.
pub open spec fn taken(cells: Map<Pos, Block>, s: Step) -> (Map<Pos, Block>, Option<Seq<char>>) {
    match s {
        Step::Put(p, b) => if fits_at(cells, p, b) {
            (cells.insert(p, b), None)
        } else {
            (cells, Some(collision_text(p, b, block_at(cells, p))))
        },
        Step::Open(p, m) => if opaque_block(block_at(cells, p)) {
            (cells, Some(m))
        } else {
            (cells, None)
        },
        Step::Stop(m) => (cells, Some(m)),
    }
}

/// The cells after a construction, up to the first step that stopped it.
pub open spec fn built(cells: Map<Pos, Block>, steps: Seq<Step>) -> (
    Map<Pos, Block>,
    Option<Seq<char>>,
)
    decreases steps.len(),
{
    if steps.len() == 0 {
        (cells, None)
    } else {
        let before = built(cells, steps.drop_last());
        if before.1 is Some {
            before
        } else {
            taken(before.0, steps.last())
        }
    }
}

/// The message of a failure.
pub open spec fn refusal<T>(r: Result<T, String>) -> Option<Seq<char>> {
    match r {
        Ok(_) => None,
        Err(m) => Some(m@),
    }
}

/// A construction in two parts: the second begins where the first went through.
pub proof fn lemma_built_join(cells: Map<Pos, Block>, a: Seq<Step>, b: Seq<Step>)
    ensures
        built(cells, a + b) == if built(cells, a).1 is Some {
            built(cells, a)
        } else {
            built(built(cells, a).0, b)
        },
    decreases b.len(),
{
    if b.len() == 0 {
        assert(a + b =~= a);
    } else {
        lemma_built_join(cells, a, b.drop_last());
        assert((a + b).drop_last() =~= a + b.drop_last());
        assert((a + b).last() == b.last());
    }
}

/// One step more.
pub proof fn lemma_built_push(cells: Map<Pos, Block>, a: Seq<Step>, s: Step)
    ensures
        built(cells, a.push(s)) == if built(cells, a).1 is Some {
            built(cells, a)
        } else {
            taken(built(cells, a).0, s)
        },
{
    assert(a.push(s).drop_last() =~= a);
}

/// What stops a construction early stops the whole of it.
pub proof fn lemma_built_stops(cells: Map<Pos, Block>, steps: Seq<Step>, n: int)
    requires
        0 <= n <= steps.len(),
        built(cells, steps.take(n)).1 is Some,
    ensures
        built(cells, steps) == built(cells, steps.take(n)),
{
    lemma_built_join(cells, steps.take(n), steps.skip(n));
    assert(steps.take(n) + steps.skip(n) =~= steps);
}

/// Place the next block of the construction `plan`, of which `n` steps are done.
pub fn put(
    g: &mut Grid,
    p: Pos,
    b: Block,
    Ghost(start): Ghost<Map<Pos, Block>>,
    Ghost(plan): Ghost<Seq<Step>>,
    Ghost(n): Ghost<int>,
) -> (r: Result<(), String>)
    requires
        0 <= n < plan.len(),
        plan[n] == Step::Put(p, b),
        built(start, plan.take(n)) == (old(g)@, None::<Seq<char>>),
    ensures
        match r {
            Ok(_) => built(start, plan.take(n + 1)) == (final(g)@, None::<Seq<char>>),
            Err(m) => built(start, plan) == (final(g)@, Some(m@)),
        },
{
    proof {
        assert(plan.take(n + 1) =~= plan.take(n).push(plan[n]));
        lemma_built_push(start, plan.take(n), plan[n]);
    }
    let r = g.set(p, b);
    proof {
        if r is Err {
            lemma_built_stops(start, plan, n + 1);
        }
    }
    r
}

/// Go on with the construction `plan` only where the block at `p` is not opaque.
pub fn is_open(
    g: &Grid,
    p: Pos,
    Ghost(m): Ghost<Seq<char>>,
    Ghost(start): Ghost<Map<Pos, Block>>,
    Ghost(plan): Ghost<Seq<Step>>,
    Ghost(n): Ghost<int>,
) -> (r: bool)
    requires
        0 <= n < plan.len(),
        plan[n] == Step::Open(p, m),
        built(start, plan.take(n)) == (g@, None::<Seq<char>>),
    ensures
        r ==> built(start, plan.take(n + 1)) == (g@, None::<Seq<char>>),
        !r ==> built(start, plan) == (g@, Some(m)),
{
    proof {
        assert(plan.take(n + 1) =~= plan.take(n).push(plan[n]));
        lemma_built_push(start, plan.take(n), plan[n]);
    }
    let r = !g.get(p).is_opaque();
    proof {
        if !r {
            lemma_built_stops(start, plan, n + 1);
        }
    }
    r
}

} // verus!
