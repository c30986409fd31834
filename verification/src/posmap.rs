//! Maps keyed by block positions.
use crate::world::Pos;
use crate::sorting::sorted;
use std::collections::HashMap;
use vstd::prelude::*;

verus! {

broadcast use vstd::std_specs::hash::group_hash_axioms;

/// Where a position stands when positions are ordered by layer (y), then by
/// row (z), then along the row (x).
pub open spec fn layer_rank(p: Pos) -> int {
    ((p.1 + 0x8000_0000) * 0x1_0000_0000 + (p.2 + 0x8000_0000)) * 0x1_0000_0000 + (p.0
        + 0x8000_0000)
}

/// Where a position stands when positions are ordered by x, then y, then z.
pub open spec fn lex_rank(p: Pos) -> int {
    layer_rank((p.2, p.0, p.1))
}

/// The position of a rank.
pub open spec fn ranked(k: int) -> Pos {
    (
        (k % 0x1_0000_0000 - 0x8000_0000) as i32,
        (k / 0x1_0000_0000 / 0x1_0000_0000 - 0x8000_0000) as i32,
        (k / 0x1_0000_0000 % 0x1_0000_0000 - 0x8000_0000) as i32,
    )
}

/// The number of ranks.
pub open spec fn ranks() -> int {
    0x1_0000_0000_0000_0000_0000_0000int
}

/// Ranks and positions correspond one to one.
pub proof fn lemma_rank(p: Pos)
    ensures
        0 <= layer_rank(p) < ranks(),
        ranked(layer_rank(p)) == p,
{
}

/// Every rank below the number of ranks is the rank of its position.
pub proof fn lemma_ranked(k: int)
    requires
        0 <= k < ranks(),
    ensures
        layer_rank(ranked(k)) == k,
{
}

fn rank_of(p: Pos) -> (k: u128)
    ensures
        k == layer_rank(p),
{
    let x: u128 = (p.0 as i64 + 0x8000_0000) as u128;
    let y: u128 = (p.1 as i64 + 0x8000_0000) as u128;
    let z: u128 = (p.2 as i64 + 0x8000_0000) as u128;
    (y * 0x1_0000_0000 + z) * 0x1_0000_0000 + x
}

fn pos_of(k: u128) -> (p: Pos)
    requires
        k < ranks(),
    ensures
        p == ranked(k as int),
{
    let x: i64 = (k % 0x1_0000_0000) as i64 - 0x8000_0000;
    let z: i64 = (k / 0x1_0000_0000 % 0x1_0000_0000) as i64 - 0x8000_0000;
    let y: i64 = (k / 0x1_0000_0000 / 0x1_0000_0000) as i64 - 0x8000_0000;
    (x as i32, y as i32, z as i32)
}

/// The positions come by layer, then by row, then along the row, each once.
pub open spec fn by_layer(s: Seq<Pos>) -> bool {
    forall|i: int, j: int| 0 <= i < j < s.len() ==> layer_rank(s[i]) < layer_rank(s[j])
}

/// The positions increase by x, then y, then z.
pub open spec fn by_axes(s: Seq<Pos>) -> bool {
    forall|i: int, j: int| 0 <= i < j < s.len() ==> lex_rank(s[i]) < lex_rank(s[j])
}

/// The positions of the ranks `ks`.
fn positions_of(ks: &Vec<u128>) -> (r: Vec<Pos>)
    requires
        forall|i: int| 0 <= i < ks@.len() ==> ks@[i] < ranks(),
    ensures
        r@ == ks@.map_values(|k: u128| ranked(k as int)),
{
    let mut r: Vec<Pos> = Vec::new();
    for i in 0..ks.len()
        invariant
            forall|i: int| 0 <= i < ks@.len() ==> ks@[i] < ranks(),
            r@ =~= ks@.take(i as int).map_values(|k: u128| ranked(k as int)),
    {
        r.push(pos_of(ks[i]));
    }
    assert(ks@.take(ks@.len() as int) =~= ks@);
    r
}

/// The positions of `v`, each once, by x, then y, then z.
pub fn sort_by_axes(v: &Vec<Pos>) -> (r: Vec<Pos>)
    ensures
        by_axes(r@),
        forall|p: Pos| #[trigger] v@.contains(p) <==> r@.contains(p),
{
    let mut ks: Vec<u128> = Vec::new();
    for i in 0..v.len()
        invariant
            ks@.len() == i,
            forall|j: int| 0 <= j < i ==> ks@[j] == lex_rank(#[trigger] v@[j]),
    {
        let p: Pos = v[i];
        ks.push(rank_of((p.2, p.0, p.1)));
    }
    let ranks = sorted(&ks);
    proof {
        assert forall|j: int| 0 <= j < ranks@.len() implies ranks@[j] < self::ranks() by {
            assert(ranks@.to_set().contains(ranks@[j]));
            let i = choose|i: int| 0 <= i < ks@.len() && ks@[i] == ranks@[j];
            lemma_rank((v@[i].2, v@[i].0, v@[i].1));
        }
    }
    let mut r: Vec<Pos> = Vec::new();
    for i in 0..ranks.len()
        invariant
            forall|j: int| 0 <= j < ranks@.len() ==> ranks@[j] < self::ranks(),
            r@.len() == i,
            forall|j: int| 0 <= j < i ==> lex_rank(#[trigger] r@[j]) == ranks@[j],
    {
        let q: Pos = pos_of(ranks[i]);
        proof {
            lemma_ranked(ranks@[i as int] as int);
        }
        r.push((q.1, q.2, q.0));
    }
    proof {
        assert forall|p: Pos| #[trigger] v@.contains(p) implies r@.contains(p) by {
            let i = choose|i: int| 0 <= i < v@.len() && v@[i] == p;
            assert(ks@.to_set().contains(ks@[i]));
            assert(ranks@.to_set().contains(ks@[i]));
            let j = choose|j: int| 0 <= j < ranks@.len() && ranks@[j] == ks@[i];
            lemma_rank((p.2, p.0, p.1));
            lemma_rank((r@[j].2, r@[j].0, r@[j].1));
            assert(r@[j] == p);
        }
        assert forall|p: Pos| #[trigger] r@.contains(p) implies v@.contains(p) by {
            let j = choose|j: int| 0 <= j < r@.len() && r@[j] == p;
            assert(ranks@.to_set().contains(ranks@[j]));
            let i = choose|i: int| 0 <= i < ks@.len() && ks@[i] == ranks@[j];
            lemma_rank((p.2, p.0, p.1));
            lemma_rank((v@[i].2, v@[i].0, v@[i].1));
            assert(v@[i] == p);
        }
    }
    r
}

proof fn lemma_push(s: Seq<u128>, k: u128, q: u128)
    ensures
        s.push(k).contains(q) == (s.contains(q) || q == k),
{
    if s.contains(q) {
        let i = choose|i: int| 0 <= i < s.len() && s[i] == q;
        assert(s.push(k)[i] == q);
    }
    assert(s.push(k)[s.len() as int] == k);
}

/// A map from positions.
#[derive(Debug)]
pub struct PosMap<V> {
    cells: HashMap<u128, V>,
}

impl<V> View for PosMap<V> {
    type V = Map<Pos, V>;

    closed spec fn view(&self) -> Map<Pos, V> {
        Map::new(
            |p: Pos| self.cells@.contains_key(layer_rank(p) as u128),
            |p: Pos| self.cells@[layer_rank(p) as u128],
        )
    }
}

impl<V: Copy> Clone for PosMap<V> {
    fn clone(&self) -> (r: PosMap<V>)
        ensures
            r@ == self@,
    {
        let ps = self.positions();
        let mut r: PosMap<V> = PosMap::new();
        for i in 0..ps.len()
            invariant
                forall|p: Pos| #[trigger] self@.contains_key(p) <==> ps@.contains(p),
                forall|p: Pos| #[trigger] r@.contains_key(p) <==> ps@.take(i as int).contains(p),
                forall|p: Pos| #[trigger] r@.contains_key(p) ==> self@.contains_key(p) && r@[p] == self@[p],
        {
            let p: Pos = ps[i];
            let ghost had = ps@.take(i as int);
            assert(ps@.contains(p));
            match self.get(p) {
                Some(v) => {
                    r.insert(p, *v);
                },
                None => {},
            }
            proof {
                assert(ps@.take(i + 1) =~= had.push(p));
                assert forall|q: Pos| #[trigger] r@.contains_key(q) <==> ps@.take(i + 1).contains(q) by {
                    if had.contains(q) {
                        let k = choose|k: int| 0 <= k < had.len() && had[k] == q;
                        assert(had.push(p)[k] == q);
                    }
                    assert(had.push(p)[had.len() as int] == p);
                }
            }
        }
        assert(ps@.take(ps@.len() as int) =~= ps@);
        assert(r@ =~= self@);
        r
    }
}

impl<V> PosMap<V> {
    pub fn new() -> (m: PosMap<V>)
        ensures
            m@ == Map::<Pos, V>::empty(),
    {
        let m = PosMap { cells: HashMap::new() };
        assert(m@ =~= Map::<Pos, V>::empty());
        m
    }

    pub fn contains(&self, p: Pos) -> (r: bool)
        ensures
            r == self@.contains_key(p),
    {
        proof {
            lemma_rank(p);
        }
        self.cells.contains_key(&rank_of(p))
    }

    pub fn get(&self, p: Pos) -> (r: Option<&V>)
        ensures
            match r {
                Some(v) => self@.contains_key(p) && self@[p] == *v,
                None => !self@.contains_key(p),
            },
    {
        proof {
            lemma_rank(p);
        }
        self.cells.get(&rank_of(p))
    }

    pub fn insert(&mut self, p: Pos, v: V)
        ensures
            final(self)@ == old(self)@.insert(p, v),
    {
        let k: u128 = rank_of(p);
        self.cells.insert(k, v);
        proof {
            lemma_rank(p);
            assert forall|q: Pos| #[trigger] layer_rank(q) == layer_rank(p) implies q == p by {
                lemma_rank(q);
            }
            assert forall|q: Pos| 0 <= #[trigger] layer_rank(q) < ranks() by {
                lemma_rank(q);
            }
            assert(self@ =~= old(self)@.insert(p, v));
        }
    }

    pub fn remove(&mut self, p: Pos)
        ensures
            final(self)@ == old(self)@.remove(p),
    {
        let k: u128 = rank_of(p);
        self.cells.remove(&k);
        proof {
            lemma_rank(p);
            assert forall|q: Pos| #[trigger] layer_rank(q) == layer_rank(p) implies q == p by {
                lemma_rank(q);
            }
            assert forall|q: Pos| 0 <= #[trigger] layer_rank(q) < ranks() by {
                lemma_rank(q);
            }
            assert(self@ =~= old(self)@.remove(p));
        }
    }

    /// The ranks that have a value. No position has a rank past the last one.
    fn ranks_held(&self) -> (r: Vec<u128>)
        ensures
            r@.no_duplicates(),
            forall|k: u128| #[trigger] r@.contains(k) <==> self.cells@.contains_key(k) && k < ranks(),
    {
        let mut r: Vec<u128> = Vec::new();
        let ghost mut seen: Seq<u128> = Seq::empty();
        for k in it: self.cells.keys()
            invariant
                seen == it.seq().unref().take(it.index() as int),
                it.seq().no_duplicates(),
                it.seq().unref().to_set() == self.cells@.dom(),
                r@.no_duplicates(),
                forall|k: u128| #[trigger] r@.contains(k) <==> seen.contains(k) && k < ranks(),
                it.index() == it.seq().len() ==> seen == it.seq().unref(),
            ensures
                seen.to_set() == self.cells@.dom(),
                r@.no_duplicates(),
                forall|k: u128| #[trigger] r@.contains(k) <==> seen.contains(k) && k < ranks(),
        {
            let ghost before = r@;
            if *k < 0x1_0000_0000_0000_0000_0000_0000 {
                r.push(*k);
            }
            proof {
                let all = it.seq().unref();
                assert(all[it.index() as int] == *k);
                let next = seen.push(*k);
                assert(next =~= all.take(it.index() as int + 1));
                assert(!seen.contains(*k)) by {
                    if seen.contains(*k) {
                        let i = choose|i: int| 0 <= i < seen.len() && seen[i] == *k;
                        assert(it.seq()[i] == it.seq()[it.index() as int]);
                    }
                }
                assert(!before.contains(*k));
                assert forall|q: u128| #[trigger] r@.contains(q) <==> next.contains(q) && q < ranks() by {
                    lemma_push(seen, *k, q);
                    lemma_push(before, *k, q);
                    assert(before.contains(q) == (seen.contains(q) && q < ranks()));
                }
                assert(it.index() + 1 == all.len() ==> next =~= all);
            }
            proof {
                seen = seen.push(*k);
            }
        }
        proof {
            assert forall|k: u128| seen.contains(k) == self.cells@.contains_key(k) by {
                assert(seen.to_set().contains(k) == self.cells@.dom().contains(k));
            }
        }
        r
    }

    proof fn lemma_held(&self, ks: Seq<u128>)
        requires
            forall|k: u128| #[trigger] ks.contains(k) <==> self.cells@.contains_key(k) && k < ranks(),
        ensures
            forall|i: int| 0 <= i < ks.len() ==> ks[i] < ranks(),
            forall|p: Pos| #[trigger] self@.contains_key(p) <==> ks.map_values(
                |k: u128| ranked(k as int),
            ).contains(p),
    {
        let ps = ks.map_values(|k: u128| ranked(k as int));
        assert forall|i: int| 0 <= i < ks.len() implies ks[i] < ranks() by {
            assert(ks.contains(ks[i]));
        }
        assert forall|p: Pos| #[trigger] self@.contains_key(p) implies ps.contains(p) by {
            lemma_rank(p);
            assert(ks.contains(layer_rank(p) as u128));
            let i = choose|i: int| 0 <= i < ks.len() && ks[i] == layer_rank(p) as u128;
            assert(ps[i] == p);
        }
        assert forall|p: Pos| #[trigger] ps.contains(p) implies self@.contains_key(p) by {
            let i = choose|i: int| 0 <= i < ps.len() && ps[i] == p;
            assert(ks.contains(ks[i]));
            lemma_ranked(ks[i] as int);
        }
    }

    /// The positions that have a value, each once, in no fixed order.
    pub fn positions(&self) -> (r: Vec<Pos>)
        ensures
            r@.no_duplicates(),
            forall|p: Pos| #[trigger] self@.contains_key(p) <==> r@.contains(p),
    {
        let ks = self.ranks_held();
        proof {
            self.lemma_held(ks@);
        }
        let r = positions_of(&ks);
        proof {
            assert forall|i: int, j: int| 0 <= i < r@.len() && 0 <= j < r@.len() && i != j implies r@[i]
                != r@[j] by {
                lemma_ranked(ks@[i] as int);
                lemma_ranked(ks@[j] as int);
            }
        }
        r
    }

    /// The positions that have a value, by layer, then by row, then along the row.
    pub fn sorted_positions(&self) -> (r: Vec<Pos>)
        ensures
            by_layer(r@),
            forall|p: Pos| #[trigger] self@.contains_key(p) <==> r@.contains(p),
    {
        let held = self.ranks_held();
        let ks = sorted(&held);
        proof {
            assert forall|k: u128| #[trigger] ks@.contains(k) <==> held@.contains(k) by {
                assert(ks@.to_set().contains(k) == held@.to_set().contains(k));
            }
            self.lemma_held(ks@);
        }
        let r = positions_of(&ks);
        proof {
            assert forall|i: int, j: int| 0 <= i < j < r@.len() implies layer_rank(r@[i]) < layer_rank(
                r@[j],
            ) by {
                lemma_ranked(ks@[i] as int);
                lemma_ranked(ks@[j] as int);
            }
        }
        r
    }

    pub fn len(&self) -> (n: usize)
        ensures
            self@.dom().finite(),
            n == self@.dom().len(),
    {
        let ps = self.positions();
        proof {
            assert(ps@.to_set() =~= self@.dom());
            ps@.unique_seq_to_set();
        }
        ps.len()
    }

    pub fn is_empty(&self) -> (r: bool)
        ensures
            r == (self@ == Map::<Pos, V>::empty()),
    {
        let ps = self.positions();
        proof {
            if ps@.len() == 0 {
                assert(self@ =~= Map::<Pos, V>::empty());
            } else {
                assert(ps@.contains(ps@[0]));
                assert(self@.contains_key(ps@[0]));
            }
        }
        ps.len() == 0
    }
}

} // verus!
