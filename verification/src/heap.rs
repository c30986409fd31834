//! The open list of a search: a priority queue.
use crate::world::Pos;
use vstd::multiset::Multiset;
use vstd::prelude::*;

verus! {

/// A state that a search has yet to look at.
#[derive(Clone, Copy)]
pub struct Frontier {
    /// Negated, so that the cheapest has the highest priority.
    pub priority: i128,
    pub cost: i128,
    pub pos: Pos,
    /// The direction it was entered in.
    pub dir: u8,
}

/// `a` comes before `b` in order of position.
pub open spec fn pos_below(a: Pos, b: Pos) -> bool {
    a.0 < b.0 || (a.0 == b.0 && (a.1 < b.1 || (a.1 == b.1 && a.2 < b.2)))
}

/// `a` has a lower rank than `b`: by priority, then position, then direction.
pub open spec fn ranks_below(a: Frontier, b: Frontier) -> bool {
    ||| a.priority < b.priority
    ||| a.priority == b.priority && {
        ||| pos_below(a.pos, b.pos)
        ||| a.pos == b.pos && (a.dir < b.dir || (a.dir == b.dir && a.cost < b.cost))
    }
}

fn below(a: Frontier, b: Frontier) -> (r: bool)
    ensures
        r == ranks_below(a, b),
{
    if a.priority != b.priority {
        a.priority < b.priority
    } else if a.pos.0 != b.pos.0 {
        a.pos.0 < b.pos.0
    } else if a.pos.1 != b.pos.1 {
        a.pos.1 < b.pos.1
    } else if a.pos.2 != b.pos.2 {
        a.pos.2 < b.pos.2
    } else if a.dir != b.dir {
        a.dir < b.dir
    } else {
        a.cost < b.cost
    }
}

/// `f` is the highest in `open`.
pub open spec fn is_top(open: Multiset<Frontier>, f: Frontier) -> bool {
    open.contains(f) && forall|x: Frontier| #[trigger] open.contains(x) ==> !ranks_below(f, x)
}

/// The highest in `open`.
pub open spec fn top_of(open: Multiset<Frontier>) -> Frontier {
    choose|f: Frontier| is_top(open, f)
}

/// There is only one highest.
pub proof fn lemma_top(open: Multiset<Frontier>, f: Frontier)
    requires
        is_top(open, f),
    ensures
        top_of(open) == f,
{
    let t = top_of(open);
    assert(is_top(open, t));
    assert(!ranks_below(t, f) && !ranks_below(f, t));
}

/// A binary heap.
pub struct Heap {
    v: Vec<Frontier>,
}

spec fn parent(i: int) -> int {
    (i - 1) / 2
}

/// Every entry but the one at `hole` is at most as high as its parent.
spec fn heap_but(s: Seq<Frontier>, hole: int) -> bool {
    forall|i: int| 0 < i < s.len() && i != hole ==> !ranks_below(s[parent(i)], #[trigger] s[i])
}

/// Every entry is at most as high as its parent, unless that is at `hole`.
spec fn heap_under(s: Seq<Frontier>, hole: int) -> bool {
    forall|i: int|
        0 < i < s.len() && parent(i) != hole ==> !ranks_below(s[parent(i)], #[trigger] s[i])
}

/// The entries below `hole` are at most as high as its parent.
spec fn heap_across(s: Seq<Frontier>, hole: int) -> bool {
    forall|i: int|
        0 < i < s.len() && parent(i) == hole && hole > 0 ==> !ranks_below(
            s[parent(hole)],
            #[trigger] s[i],
        )
}

proof fn lemma_swap(s: Seq<Frontier>, i: int, j: int)
    requires
        0 <= i < s.len(),
        0 <= j < s.len(),
    ensures
        s.update(i, s[j]).update(j, s[i]).to_multiset() == s.to_multiset(),
{
    broadcast use vstd::seq_lib::group_to_multiset_ensures;

    let t = s.update(i, s[j]);
    vstd::seq_lib::to_multiset_update(s, i, s[j]);
    vstd::seq_lib::to_multiset_update(t, j, s[i]);
    if i == j {
        assert(s.update(i, s[j]).update(j, s[i]) =~= s);
    } else {
        assert(t[j] == s[j]);
        assert(s.to_multiset().contains(s[i]));
        assert(s.to_multiset().insert(s[j]).remove(s[i]).insert(s[i]).remove(s[j]) =~= s.to_multiset());
    }
}

impl Heap {
    pub closed spec fn view(&self) -> Multiset<Frontier> {
        self.v@.to_multiset()
    }

    pub closed spec fn wf(&self) -> bool {
        heap_but(self.v@, -1)
    }

    pub fn new() -> (h: Heap)
        ensures
            h.wf(),
            h.view() == Multiset::<Frontier>::empty(),
    {
        broadcast use vstd::seq_lib::group_to_multiset_ensures;

        let h = Heap { v: Vec::new() };
        assert(h.view() =~= Multiset::empty());
        h
    }

    pub fn push(&mut self, f: Frontier)
        requires
            old(self).wf(),
        ensures
            final(self).wf(),
            final(self).view() == old(self).view().insert(f),
    {
        broadcast use vstd::seq_lib::group_to_multiset_ensures;

        self.v.push(f);
        let mut i: usize = self.v.len() - 1;
        let ghost goal = self.v@.to_multiset();
        assert(goal =~= old(self).view().insert(f));
        while i > 0
            invariant
                i < self.v@.len(),
                self.v@.to_multiset() == goal,
                heap_but(self.v@, i as int),
                heap_across(self.v@, i as int),
            ensures
                self.v@.to_multiset() == goal,
                heap_but(self.v@, -1),
            decreases i,
        {
            let p: usize = (i - 1) / 2;
            if !below(self.v[p], self.v[i]) {
                assert(heap_but(self.v@, -1));
                break;
            }
            let ghost s = self.v@;
            let a = self.v[p];
            let b = self.v[i];
            self.v.set(p, b);
            self.v.set(i, a);
            proof {
                lemma_swap(s, p as int, i as int);
                let t = self.v@;
                assert(t =~= s.update(p as int, s[i as int]).update(i as int, s[p as int]));
                assert forall|k: int| 0 < k < t.len() && k != p implies !ranks_below(
                    t[parent(k)],
                    #[trigger] t[k],
                ) by {
                    if k == i {
                    } else if parent(k) == i {
                        assert(!ranks_below(s[p as int], s[k]));
                    } else if parent(k) == p {
                        assert(!ranks_below(s[p as int], s[k]));
                    } else {
                        assert(!ranks_below(s[parent(k)], s[k]));
                    }
                }
                assert forall|k: int| 0 < k < t.len() && parent(k) == p && p > 0 implies !ranks_below(
                    t[parent(p as int)],
                    #[trigger] t[k],
                ) by {
                    assert(!ranks_below(s[parent(p as int)], s[p as int]));
                    if k != i {
                        assert(!ranks_below(s[p as int], s[k]));
                    }
                }
            }
            i = p;
        }
    }

    /// Take out the highest entry.
    pub fn pop(&mut self) -> (r: Option<Frontier>)
        requires
            old(self).wf(),
        ensures
            final(self).wf(),
            match r {
                Some(f) => is_top(old(self).view(), f) && final(self).view() == old(
                    self,
                ).view().remove(f),
                None => old(self).view().len() == 0 && final(self).view() == old(self).view(),
            },
    {
        broadcast use vstd::seq_lib::group_to_multiset_ensures;

        let n: usize = self.v.len();
        if n == 0 {
            return None;
        }
        let ghost s0 = self.v@;
        let top = self.v[0];
        proof {
            lemma_root(s0);
            assert(s0.to_multiset().contains(s0[0]));
            assert forall|x: Frontier| #[trigger] s0.to_multiset().contains(x) implies !ranks_below(top, x) by {
                assert(s0.contains(x));
            }
        }
        let last = self.v[n - 1];
        self.v.pop();
        let ghost s1 = self.v@;
        assert(s0 =~= s1.push(last));
        if n == 1 {
            assert(self.view() =~= old(self).view().remove(top));
            return Some(top);
        }
        self.v.set(0, last);
        let ghost goal = self.v@.to_multiset();
        proof {
            vstd::seq_lib::to_multiset_update(s1, 0, last);
            assert(s1[0] == top);
            assert(s1.to_multiset().contains(top));
            assert(goal =~= s0.to_multiset().remove(top));
            let t = self.v@;
            assert forall|k: int| 0 < k < t.len() && parent(k) != 0 implies !ranks_below(
                t[parent(k)],
                #[trigger] t[k],
            ) by {
                assert(!ranks_below(s0[parent(k)], s0[k]));
            }
        }
        let m: usize = n - 1;
        let mut i: usize = 0;
        loop
            invariant_except_break
                i < m,
                m == self.v@.len(),
                self.v@.to_multiset() == goal,
                heap_under(self.v@, i as int),
                heap_across(self.v@, i as int),
            ensures
                self.v@.to_multiset() == goal,
                heap_but(self.v@, -1),
            decreases m - i,
        {
            let ghost s = self.v@;
            if i > (m - 1) / 2 || 2 * i + 1 >= m {
                assert(heap_but(s, -1)) by {
                    assert forall|k: int| 0 < k < s.len() implies !ranks_below(s[parent(k)], #[trigger] s[k]) by {
                        assert(parent(k) != i);
                    }
                }
                break;
            }
            let l: usize = 2 * i + 1;
            let mut c: usize = l;
            if l + 1 < m && below(self.v[l], self.v[l + 1]) {
                c = l + 1;
            }
            if !below(self.v[i], self.v[c]) {
                assert(heap_but(s, -1)) by {
                    assert forall|k: int| 0 < k < s.len() implies !ranks_below(s[parent(k)], #[trigger] s[k]) by {
                        if parent(k) == i {
                            assert(k == l || k == l + 1);
                        }
                    }
                }
                break;
            }
            let a = self.v[i];
            let b = self.v[c];
            self.v.set(i, b);
            self.v.set(c, a);
            proof {
                lemma_swap(s, i as int, c as int);
                let t = self.v@;
                assert(t =~= s.update(i as int, s[c as int]).update(c as int, s[i as int]));
                assert(parent(c as int) == i);
                assert forall|k: int| 0 < k < t.len() && parent(k) != c implies !ranks_below(
                    t[parent(k)],
                    #[trigger] t[k],
                ) by {
                    if k == i {
                        assert(!ranks_below(s[parent(i as int)], s[c as int]));
                    } else if parent(k) == i {
                        assert(k == l || k == l + 1);
                    } else {
                        assert(!ranks_below(s[parent(k)], s[k]));
                    }
                }
                assert forall|k: int| 0 < k < t.len() && parent(k) == c && c > 0 implies !ranks_below(
                    t[parent(c as int)],
                    #[trigger] t[k],
                ) by {
                    assert(!ranks_below(s[parent(k)], s[k]));
                }
            }
            i = c;
        }
        Some(top)
    }
}

/// The entry at the root is the highest.
proof fn lemma_root(s: Seq<Frontier>)
    requires
        heap_but(s, -1),
    ensures
        forall|x: Frontier| #[trigger] s.contains(x) ==> !ranks_below(s[0], x),
{
    assert forall|x: Frontier| #[trigger] s.contains(x) implies !ranks_below(s[0], x) by {
        let i = choose|i: int| 0 <= i < s.len() && s[i] == x;
        lemma_root_at(s, i);
    }
}

proof fn lemma_root_at(s: Seq<Frontier>, i: int)
    requires
        heap_but(s, -1),
        0 <= i < s.len(),
    ensures
        !ranks_below(s[0], s[i]),
    decreases i,
{
    if i > 0 {
        lemma_root_at(s, parent(i));
        assert(!ranks_below(s[parent(i)], s[i]));
    }
}

} // verus!
