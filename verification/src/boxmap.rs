//! Maps that a search keeps: dense inside a box of moderate size, hashed outside.
use crate::posmap::PosMap;
use crate::schem::{lemma_place, lemma_places_differ};
use crate::world::Pos;
use vstd::prelude::*;

verus! {

/// No more cells than this are kept densely.
pub const DENSE_MAX: u64 = 0x20_0000;

/// The box that is kept densely: nothing, where its sides are zero.
pub struct Frame {
    pub lo: Pos,
    pub w: usize,
    pub h: usize,
    pub l: usize,
}

impl Frame {
    pub open spec fn wf(&self) -> bool {
        &&& self.w <= DENSE_MAX
        &&& self.h <= DENSE_MAX
        &&& self.l <= DENSE_MAX
        &&& self.volume() <= DENSE_MAX
    }

    pub open spec fn volume(&self) -> int {
        self.w * self.h * self.l
    }

    pub open spec fn holds(&self, p: Pos) -> bool {
        &&& 0 <= p.0 - self.lo.0 < self.w
        &&& 0 <= p.1 - self.lo.1 < self.h
        &&& 0 <= p.2 - self.lo.2 < self.l
    }

    /// Where a position of the box is kept.
    pub open spec fn place(&self, p: Pos) -> int {
        (p.0 - self.lo.0) + (p.2 - self.lo.2) * self.w + (p.1 - self.lo.1) * self.w * self.l
    }

    /// Positions have places of their own.
    pub proof fn lemma_place_in(&self, p: Pos)
        requires
            self.holds(p),
        ensures
            0 <= self.place(p) < self.volume(),
    {
        lemma_place(
            self.w as int,
            self.h as int,
            self.l as int,
            p.0 - self.lo.0,
            p.1 - self.lo.1,
            p.2 - self.lo.2,
        );
    }

    pub proof fn lemma_place_own(&self, p: Pos, q: Pos)
        requires
            self.holds(p),
            self.holds(q),
            self.place(p) == self.place(q),
        ensures
            p == q,
    {
        lemma_places_differ(
            self.w as int,
            self.l as int,
            p.0 - self.lo.0,
            p.1 - self.lo.1,
            p.2 - self.lo.2,
            q.0 - self.lo.0,
            q.1 - self.lo.1,
            q.2 - self.lo.2,
        );
    }

    /// The frame of a box, unless it is too large.
    pub fn new(lo: Pos, hi: Pos) -> (f: Frame)
        ensures
            f.wf(),
    {
        let w: i64 = hi.0 as i64 - lo.0 as i64 + 1;
        let h: i64 = hi.1 as i64 - lo.1 as i64 + 1;
        let l: i64 = hi.2 as i64 - lo.2 as i64 + 1;
        let max: i64 = DENSE_MAX as i64;
        let nothing = Frame { lo, w: 0, h: 0, l: 0 };
        assert(nothing.volume() == 0) by (nonlinear_arith)
            requires
                nothing.w == 0,
                nothing.volume() == nothing.w * nothing.h * nothing.l,
        ;
        if w <= 0 || h <= 0 || l <= 0 || w > max || h > max || l > max {
            return nothing;
        }
        assert(0 <= w * h <= 0x20_0000 * 0x20_0000) by (nonlinear_arith)
            requires
                0 < w <= 0x20_0000,
                0 < h <= 0x20_0000,
        ;
        if w * h > max {
            return nothing;
        }
        assert(0 <= w * h * l <= 0x20_0000 * 0x20_0000) by (nonlinear_arith)
            requires
                0 <= w * h <= 0x20_0000,
                0 < l <= 0x20_0000,
        ;
        if w * h * l > max {
            return nothing;
        }
        Frame { lo, w: w as usize, h: h as usize, l: l as usize }
    }

    fn size(&self) -> (n: usize)
        requires
            self.wf(),
        ensures
            n == self.volume(),
    {
        assert(self.w * self.h <= 0x20_0000 * 0x20_0000) by (nonlinear_arith)
            requires
                self.w <= 0x20_0000,
                self.h <= 0x20_0000,
        ;
        ((self.w as u64 * self.h as u64) as u128 * self.l as u128) as usize
    }

    fn index(&self, p: Pos) -> (r: Option<usize>)
        requires
            self.wf(),
        ensures
            match r {
                Some(i) => self.holds(p) && i == self.place(p) && i < self.volume(),
                None => !self.holds(p),
            },
    {
        let x: i64 = p.0 as i64 - self.lo.0 as i64;
        let y: i64 = p.1 as i64 - self.lo.1 as i64;
        let z: i64 = p.2 as i64 - self.lo.2 as i64;
        if x < 0 || y < 0 || z < 0 || x >= self.w as i64 || y >= self.h as i64 || z >= self.l as i64 {
            return None;
        }
        proof {
            self.lemma_place_in(p);
            let (w, l) = (self.w as int, self.l as int);
            lemma_place(w, self.h as int, l, x as int, y as int, z as int);
            assert(y * w * l == (y * w) * l);
            assert(0 <= y * w <= y * w * l) by (nonlinear_arith)
                requires
                    y >= 0,
                    w >= 0,
                    l >= 1,
            ;
        }
        Some((x + z * self.w as i64 + y * self.w as i64 * self.l as i64) as usize)
    }
}

/// Yes or no, for positions.
pub struct FlagMap {
    frame: Frame,
    near: Vec<u8>,
    far: PosMap<bool>,
}

impl FlagMap {
    pub closed spec fn wf(&self) -> bool {
        &&& self.frame.wf()
        &&& self.near@.len() == self.frame.volume()
    }

    pub closed spec fn view(&self) -> Map<Pos, bool> {
        Map::new(
            |p: Pos|
                if self.frame.holds(p) {
                    self.near@[self.frame.place(p)] != 0
                } else {
                    self.far@.contains_key(p)
                },
            |p: Pos|
                if self.frame.holds(p) {
                    self.near@[self.frame.place(p)] == 1
                } else {
                    self.far@[p]
                },
        )
    }

    pub fn new(lo: Pos, hi: Pos) -> (m: FlagMap)
        ensures
            m.wf(),
            m.view() == Map::<Pos, bool>::empty(),
    {
        let frame = Frame::new(lo, hi);
        let near: Vec<u8> = vec![0u8; frame.size()];
        let m = FlagMap { frame, near, far: PosMap::new() };
        assert forall|p: Pos| !m.view().contains_key(p) by {
            if m.frame.holds(p) {
                m.frame.lemma_place_in(p);
            }
        }
        assert(m.view() =~= Map::<Pos, bool>::empty());
        m
    }

    pub fn get(&self, p: Pos) -> (r: Option<bool>)
        requires
            self.wf(),
        ensures
            match r {
                Some(b) => self.view().contains_key(p) && self.view()[p] == b,
                None => !self.view().contains_key(p),
            },
    {
        match self.frame.index(p) {
            Some(i) => {
                if self.near[i] == 0 {
                    None
                } else {
                    Some(self.near[i] == 1)
                }
            },
            None => match self.far.get(p) {
                Some(b) => Some(*b),
                None => None,
            },
        }
    }

    pub fn insert(&mut self, p: Pos, b: bool)
        requires
            old(self).wf(),
        ensures
            final(self).wf(),
            final(self).view() == old(self).view().insert(p, b),
    {
        let ghost before = *self;
        match self.frame.index(p) {
            Some(i) => {
                self.near.set(
                    i,
                    if b {
                        1
                    } else {
                        2
                    },
                );
            },
            None => {
                self.far.insert(p, b);
            },
        }
        proof {
            let after = self.view();
            let goal = before.view().insert(p, b);
            assert forall|q: Pos|
                #![trigger after.dom().contains(q)]
                #![trigger goal.dom().contains(q)]
                after.dom().contains(q) == goal.dom().contains(q) && (after.dom().contains(q) ==> after[q]
                    == goal[q]) by {
                if self.frame.holds(q) {
                    self.frame.lemma_place_in(q);
                    if self.frame.holds(p) && q != p && self.frame.place(p) == self.frame.place(q) {
                        self.frame.lemma_place_own(p, q);
                    }
                }
            }
            assert(after =~= goal);
        }
    }
}

/// Costs, for positions and the direction that they are entered in.
pub struct CostMap {
    frame: Frame,
    near: Vec<i128>,
    far: Vec<PosMap<i128>>,
}

impl CostMap {
    pub closed spec fn wf(&self) -> bool {
        &&& self.frame.wf()
        &&& self.near@.len() == 5 * self.frame.volume()
        &&& self.far@.len() == 5
        &&& forall|i: int| 0 <= i < self.near@.len() ==> (#[trigger] self.near@[i]) >= 0
    }

    pub closed spec fn view(&self) -> Map<(Pos, u8), int> {
        Map::new(
            |n: (Pos, u8)|
                n.1 < 5 && if self.frame.holds(n.0) {
                    self.near@[5 * self.frame.place(n.0) + n.1] != 0
                } else {
                    self.far@[n.1 as int]@.contains_key(n.0)
                },
            |n: (Pos, u8)|
                if self.frame.holds(n.0) {
                    self.near@[5 * self.frame.place(n.0) + n.1] - 1
                } else {
                    self.far@[n.1 as int]@[n.0] as int
                },
        )
    }

    /// There are five directions.
    pub proof fn lemma_dir(&self, n: (Pos, u8))
        requires
            self.view().contains_key(n),
        ensures
            n.1 < 5,
    {
    }

    pub fn new(lo: Pos, hi: Pos) -> (m: CostMap)
        ensures
            m.wf(),
            m.view() == Map::<(Pos, u8), int>::empty(),
    {
        let frame = Frame::new(lo, hi);
        let near: Vec<i128> = vec![0i128; 5 * frame.size()];
        let mut far: Vec<PosMap<i128>> = Vec::new();
        for i in 0..5usize
            invariant
                far@.len() == i,
                forall|j: int| 0 <= j < i ==> (#[trigger] far@[j])@ == Map::<Pos, i128>::empty(),
        {
            far.push(PosMap::new());
        }
        let m = CostMap { frame, near, far };
        assert forall|n: (Pos, u8)| !m.view().contains_key(n) by {
            if m.frame.holds(n.0) {
                m.frame.lemma_place_in(n.0);
            }
        }
        assert(m.view() =~= Map::<(Pos, u8), int>::empty());
        m
    }

    pub fn get(&self, p: Pos, dir: u8) -> (r: Option<i128>)
        requires
            self.wf(),
            dir < 5,
        ensures
            match r {
                Some(c) => self.view().contains_key((p, dir)) && self.view()[(p, dir)] == c,
                None => !self.view().contains_key((p, dir)),
            },
    {
        match self.frame.index(p) {
            Some(i) => {
                let c: i128 = self.near[5 * i + dir as usize];
                if c == 0 {
                    None
                } else {
                    Some(c - 1)
                }
            },
            None => match self.far[dir as usize].get(p) {
                Some(c) => Some(*c),
                None => None,
            },
        }
    }

    pub fn insert(&mut self, p: Pos, dir: u8, c: i128)
        requires
            old(self).wf(),
            dir < 5,
            0 <= c < i128::MAX,
        ensures
            final(self).wf(),
            final(self).view() == old(self).view().insert((p, dir), c as int),
    {
        let ghost before = *self;
        match self.frame.index(p) {
            Some(i) => {
                self.near.set(5 * i + dir as usize, c + 1);
            },
            None => {
                self.far[dir as usize].insert(p, c);
            },
        }
        proof {
            let after = self.view();
            let goal = before.view().insert((p, dir), c as int);
            assert forall|n: (Pos, u8)|
                #![trigger after.dom().contains(n)]
                #![trigger goal.dom().contains(n)]
                after.dom().contains(n) == goal.dom().contains(n) && (after.dom().contains(n) ==> after[n]
                    == goal[n]) by {
                if self.frame.holds(n.0) {
                    self.frame.lemma_place_in(n.0);
                    if self.frame.holds(p) && n.0 != p && self.frame.place(p) == self.frame.place(n.0) {
                        self.frame.lemma_place_own(p, n.0);
                    }
                }
            }
            assert(after =~= goal);
        }
    }
}

} // verus!
