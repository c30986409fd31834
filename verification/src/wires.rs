//! What a wire carries: a signal, from its driver to its end.
use crate::logic::{driven_only_by, fed_only_from, lemma_driver};
use crate::paths::{good_sites, is_site};
use crate::redstone::{
    active, at_rest, dust_level, ends_of, lemma_level_positive, lemma_reached_further, link,
    reached, seeded, Circuit,
};
use crate::world::{beside, block_at, is_dust, opposite_of, Block, Dir, Pos};
use vstd::prelude::*;

verus! {

// --- wires without a repeater --------------------------------------------------------------

/// Dust that conducts from each cell to the next.
#[verifier::opaque]
pub open spec fn conducts(cells: Map<Pos, Block>, w: Seq<Pos>) -> bool {
    &&& forall|i: int| 0 <= i < w.len() ==> is_dust(block_at(cells, #[trigger] w[i]))
    &&& forall|i: int| 0 < i < w.len() ==> leads(cells, w[i - 1], #[trigger] w[i])
}

/// The dust at `p` conducts to `q`.
pub open spec fn leads(cells: Map<Pos, Block>, p: Pos, q: Pos) -> bool {
    exists|d: Dir| #[trigger] link(cells, p, d) == Some(q)
}

/// Nothing but the component at `q` drives the wire, and no other dust joins it.
#[verifier::opaque]
pub open spec fn wire_alone(cells: Map<Pos, Block>, w: Seq<Pos>, q: Pos) -> bool {
    forall|i: int|
        0 <= i < w.len() ==> driven_only_by(cells, #[trigger] w[i], set![q]) && fed_only_from(
            cells,
            w[i],
            w.to_set(),
        )
}

proof fn lemma_wire_reached(cells: Map<Pos, Block>, c: Circuit, w: Seq<Pos>, i: nat)
    requires
        conducts(cells, w),
        i < w.len(),
        seeded(cells, c, w[0]),
    ensures
        reached(cells, c, w[i as int], i),
    decreases i,
{
    reveal(conducts);
    if i > 0 {
        lemma_wire_reached(cells, c, w, (i - 1) as nat);
        assert(leads(cells, w[i - 1], w[i as int]));
        let d = choose|d: Dir| #[trigger] link(cells, w[i - 1], d) == Some(w[i as int]);
        assert(link(cells, w[i - 1], d) == Some(w[i as int]) && reached(cells, c, w[i - 1], (i - 1) as nat));
    }
}

proof fn lemma_wire_dark(cells: Map<Pos, Block>, c: Circuit, w: Seq<Pos>, q: Pos, i: int, n: nat)
    requires
        wire_alone(cells, w, q),
        !active(cells, c, q),
        0 <= i < w.len(),
    ensures
        !reached(cells, c, w[i], n),
    decreases n,
{
    reveal(wire_alone);
    if reached(cells, c, w[i], n) {
        if n == 0 {
            let r = lemma_driver(cells, c, w[i], set![q]);
            assert(r == q);
        } else {
            lemma_wire_dark(cells, c, w, q, i, (n - 1) as nat);
            let (m, d) = choose|m: Pos, d: Dir| #[trigger]
                link(cells, m, d) == Some(w[i]) && reached(cells, c, m, (n - 1) as nat);
            assert(w.to_set().contains(m));
            let j = choose|j: int| 0 <= j < w.len() && w[j] == m;
            lemma_wire_dark(cells, c, w, q, j, (n - 1) as nat);
        }
    }
}

/// A wire of up to fifteen dusts that stands alone has a signal in all of it, or none,
/// as its driver is on or off; where it is driven, it has full strength.
pub proof fn lemma_wire(cells: Map<Pos, Block>, c: Circuit, w: Seq<Pos>, q: Pos)
    requires
        0 < w.len() <= 15,
        conducts(cells, w),
        wire_alone(cells, w, q),
        ends_of(block_at(cells, q), q).contains(w[0]),
    ensures
        forall|i: int|
            0 <= i < w.len() ==> (dust_level(cells, c, #[trigger] w[i]) > 0 <==> active(cells, c, q)),
        active(cells, c, q) ==> dust_level(cells, c, w[0]) == 15,
{
    reveal(conducts);
    assert forall|i: int| 0 <= i < w.len() implies (dust_level(cells, c, #[trigger] w[i]) > 0 <==> active(
        cells,
        c,
        q,
    )) by {
        lemma_level_positive(cells, c, w[i], 0);
        if active(cells, c, q) {
            assert(seeded(cells, c, w[0]));
            lemma_wire_reached(cells, c, w, i as nat);
            lemma_reached_further(cells, c, w[i], i as nat, 14);
        } else {
            lemma_wire_dark(cells, c, w, q, i, 14);
        }
    }
    if active(cells, c, q) {
        assert(seeded(cells, c, w[0]));
        assert(reached(cells, c, w[0], 0));
    }
}

// --- wires with repeaters --------------------------------------------------------------------

/// Where the `k`th stretch of dust begins: behind a repeater, or at the start of the path.
pub open spec fn stretch_from(sites: Seq<int>, k: int) -> int {
    if k == 0 {
        0
    } else {
        sites[k - 1] + 1
    }
}

/// Where it ends.
pub open spec fn stretch_to(path: Seq<Pos>, sites: Seq<int>, k: int) -> int {
    if k == sites.len() {
        path.len() as int
    } else {
        sites[k]
    }
}

/// The `k`th stretch of dust of a path with repeaters at `sites`.
pub open spec fn stretch(path: Seq<Pos>, sites: Seq<int>, k: int) -> Seq<Pos> {
    path.subrange(stretch_from(sites, k), stretch_to(path, sites, k))
}

/// What drives it: the repeater before it, or what drives the path.
pub open spec fn stretch_driver(path: Seq<Pos>, sites: Seq<int>, q: Pos, k: int) -> Pos {
    if k == 0 {
        q
    } else {
        path[sites[k - 1]]
    }
}

/// A repeater stands on the path at `i`, and carries from the cell before to the one after.
pub open spec fn relays(cells: Map<Pos, Block>, path: Seq<Pos>, i: int) -> bool {
    match block_at(cells, path[i]) {
        Block::Repeater { facing, .. } => beside(path[i], facing) == path[i - 1] && beside(
            path[i],
            opposite_of(facing),
        ) == path[i + 1],
        _ => false,
    }
}

/// A path is laid: repeaters at its sites, and dust that conducts between them.
pub open spec fn path_laid(cells: Map<Pos, Block>, path: Seq<Pos>, sites: Seq<int>) -> bool {
    &&& forall|k: int| 0 <= k <= sites.len() ==> conducts(cells, #[trigger] stretch(path, sites, k))
    &&& forall|k: int| 0 <= k < sites.len() ==> relays(cells, path, #[trigger] sites[k])
}

/// Nothing but the component at `q` drives the path, and no other dust joins it.
pub open spec fn path_alone(cells: Map<Pos, Block>, path: Seq<Pos>, sites: Seq<int>, q: Pos) -> bool {
    forall|k: int|
        0 <= k <= sites.len() ==> wire_alone(
            cells,
            #[trigger] stretch(path, sites, k),
            stretch_driver(path, sites, q, k),
        )
}

/// A stretch of dust has the signal of the component before it.
proof fn lemma_stretch(
    cells: Map<Pos, Block>,
    c: Circuit,
    path: Seq<Pos>,
    decay: int,
    sites: Seq<int>,
    q: Pos,
    k: int,
)
    requires
        0 <= decay,
        0 < path.len(),
        good_sites(path, decay, path.len() - 1, sites),
        path_laid(cells, path, sites),
        path_alone(cells, path, sites, q),
        ends_of(block_at(cells, q), q).contains(path[0]),
        0 <= k <= sites.len(),
    ensures
        0 <= stretch_from(sites, k) <= stretch_to(path, sites, k) <= path.len(),
        forall|i: int|
            stretch_from(sites, k) <= i < stretch_to(path, sites, k) ==> is_dust(
                block_at(cells, #[trigger] path[i]),
            ) && (dust_level(cells, c, path[i]) > 0 <==> active(cells, c, stretch_driver(path, sites, q, k))),
{
    let w = stretch(path, sites, k);
    let from = stretch_from(sites, k);
    let to = stretch_to(path, sites, k);
    let d = stretch_driver(path, sites, q, k);
    if k > 0 {
        assert(is_site(path, sites[k - 1]));
        assert(relays(cells, path, sites[k - 1]));
        assert(ends_of(block_at(cells, d), d)[0] == path[from]);
    }
    if k < sites.len() {
        assert(is_site(path, sites[k]));
        if k > 0 {
            assert(sites[k] - sites[k - 1] <= 13);
        }
    }
    if w.len() > 0 {
        assert(w[0] == path[from]);
        lemma_wire(cells, c, w, d);
        assert forall|i: int| from <= i < to implies is_dust(block_at(cells, #[trigger] path[i])) && (dust_level(
            cells,
            c,
            path[i],
        ) > 0 <==> active(cells, c, d)) by {
            reveal(conducts);
            assert(w[i - from] == path[i]);
        }
    }
}

/// Every repeater of a path is on exactly while the path is driven.
proof fn lemma_relayed(
    cells: Map<Pos, Block>,
    c: Circuit,
    path: Seq<Pos>,
    decay: int,
    sites: Seq<int>,
    q: Pos,
    k: int,
)
    requires
        0 <= decay,
        0 < path.len(),
        good_sites(path, decay, path.len() - 1, sites),
        path_laid(cells, path, sites),
        path_alone(cells, path, sites, q),
        ends_of(block_at(cells, q), q).contains(path[0]),
        at_rest(cells, c),
        0 <= k <= sites.len(),
    ensures
        active(cells, c, stretch_driver(path, sites, q, k)) <==> active(cells, c, q),
    decreases k,
{
    if k > 0 {
        lemma_relayed(cells, c, path, decay, sites, q, k - 1);
        lemma_stretch(cells, c, path, decay, sites, q, k - 1);
        let i = sites[k - 1];
        assert(is_site(path, i));
        assert(relays(cells, path, i));
        if stretch_from(sites, k - 1) < i {
            assert(is_dust(block_at(cells, path[i - 1])));
        } else {
            assert(k > 1 && sites[k - 2] == i - 1);
            assert(relays(cells, path, sites[k - 2]));
        }
    }
}

/// A wire carries its signal to its end: a path that is laid with repeaters on a good list
/// of sites, as a plan is, and that stands alone, has a signal in all of its dust exactly
/// while its driver is on, in a circuit at rest.
pub proof fn lemma_path_carries(
    cells: Map<Pos, Block>,
    c: Circuit,
    path: Seq<Pos>,
    decay: int,
    sites: Seq<int>,
    q: Pos,
)
    requires
        0 <= decay,
        0 < path.len(),
        good_sites(path, decay, path.len() - 1, sites),
        path_laid(cells, path, sites),
        path_alone(cells, path, sites, q),
        ends_of(block_at(cells, q), q).contains(path[0]),
        at_rest(cells, c),
    ensures
        forall|i: int|
            0 <= i < path.len() && !sites.contains(i) ==> (dust_level(cells, c, #[trigger] path[i]) > 0
                <==> active(cells, c, q)),
        dust_level(cells, c, path.last()) > 0 <==> active(cells, c, q),
{
    assert forall|i: int| 0 <= i < path.len() && !sites.contains(i) implies (dust_level(
        cells,
        c,
        #[trigger] path[i],
    ) > 0 <==> active(cells, c, q)) by {
        let k = lemma_stretch_of(path, sites, i, sites.len() as int);
        lemma_stretch(cells, c, path, decay, sites, q, k);
        lemma_relayed(cells, c, path, decay, sites, q, k);
    }
    let k = sites.len() as int;
    if k > 0 {
        assert(is_site(path, sites[k - 1]));
    }
    lemma_stretch(cells, c, path, decay, sites, q, k);
    lemma_relayed(cells, c, path, decay, sites, q, k);
    assert(path[path.len() - 1] == path.last());
}

/// The stretch that a cell of the path lies in, among the first `n` and one more.
proof fn lemma_stretch_of(path: Seq<Pos>, sites: Seq<int>, i: int, n: int) -> (k: int)
    requires
        0 <= i < path.len(),
        !sites.contains(i),
        0 <= n <= sites.len(),
        i < stretch_to(path, sites, n),
    ensures
        0 <= k <= sites.len(),
        stretch_from(sites, k) <= i < stretch_to(path, sites, k),
    decreases n,
{
    if n == 0 || sites[n - 1] < i {
        n
    } else {
        assert(sites[n - 1] != i);
        lemma_stretch_of(path, sites, i, n - 1)
    }
}

} // verus!
