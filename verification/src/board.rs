//! The board: a square grid of spaces of fixed side length, stored row by
//! row, with pure queries for bounds, ownership and terrain.

use vstd::prelude::*;

use crate::model::{AgentId, Coord, Space};

verus! {

/// A square grid of side `side`; the space at `(x, y)` sits at index
/// `x * side + y` of `spaces`.
#[derive(Debug)]
pub struct Board {
    pub side: usize,
    pub spaces: Vec<Space>,
}

impl Board {
    /// The shape invariant: a positive side, and exactly `side * side` spaces.
    pub open spec fn wf(self) -> bool {
        &&& self.side >= 1
        &&& self.spaces@.len() == self.side * self.side
    }

    /// Flat index of a coordinate.
    pub open spec fn idx(self, c: Coord) -> int {
        c.x * self.side + c.y
    }

    /// Both axes of `c` lie in `[0, side)`.
    pub open spec fn spec_in_bounds(self, c: Coord) -> bool {
        c.x < self.side && c.y < self.side
    }

    /// The space at `c`.
    pub open spec fn spec_at(self, c: Coord) -> Space {
        self.spaces@[self.idx(c)]
    }

    /// The owner of the space at `c`, if any.
    pub open spec fn spec_owner_of(self, c: Coord) -> Option<AgentId> {
        self.spec_at(c).spec_owner()
    }

    /// A fresh board of side `side`, every space `Empty`.
    pub fn new(side: usize) -> (r: Board)
        requires
            side >= 1,
            side * side <= usize::MAX,
        ensures
            r.wf(),
            r.side == side,
            r.spaces@ =~= Seq::new((side * side) as nat, |i: int| Space::Empty),
    {
        let n = side * side;
        let mut spaces: Vec<Space> = Vec::new();
        let mut i: usize = 0;
        while i < n
            invariant
                i <= n,
                spaces@ =~= Seq::new(i as nat, |j: int| Space::Empty),
            decreases n - i,
        {
            spaces.push(Space::Empty);
            i = i + 1;
        }
        Board { side, spaces }
    }

    /// Whether `c` lies on the board.
    pub fn in_bounds(&self, c: Coord) -> (r: bool)
        ensures
            r == self.spec_in_bounds(c),
    {
        c.x < self.side && c.y < self.side
    }

    /// Flat indices of in-bounds coordinates stay below `side * side`.
    pub proof fn lemma_idx_in_range(self, c: Coord)
        requires
            self.spec_in_bounds(c),
        ensures
            0 <= self.idx(c) < self.side * self.side,
    {
        assert(c.x * self.side + c.y < self.side * self.side) by (nonlinear_arith)
            requires
                c.x < self.side,
                c.y < self.side,
        ;
    }

    /// Distinct in-bounds coordinates have distinct flat indices.
    pub proof fn lemma_idx_injective(self, a: Coord, b: Coord)
        requires
            self.spec_in_bounds(a),
            self.spec_in_bounds(b),
            a != b,
        ensures
            self.idx(a) != self.idx(b),
    {
        assert(a.x * self.side + a.y != b.x * self.side + b.y) by (nonlinear_arith)
            requires
                a.x < self.side,
                a.y < self.side,
                b.x < self.side,
                b.y < self.side,
                !(a.x == b.x && a.y == b.y),
        ;
    }

    /// The space at `c`.
    pub fn at(&self, c: Coord) -> (r: Space)
        requires
            self.wf(),
            self.spec_in_bounds(c),
        ensures
            r == self.spec_at(c),
    {
        let n = self.spaces.len();
        proof {
            self.lemma_idx_in_range(c);
        }
        self.spaces[c.x * self.side + c.y]
    }

    /// The owner of the space at `c`, if any; `Mountain` and `Empty` spaces
    /// have none.
    pub fn owner_of(&self, c: Coord) -> (r: Option<AgentId>)
        requires
            self.wf(),
            self.spec_in_bounds(c),
        ensures
            r == self.spec_owner_of(c),
    {
        self.at(c).owner()
    }

    /// Whether the space at `c` is a mountain.
    pub fn is_mountain(&self, c: Coord) -> (r: bool)
        requires
            self.wf(),
            self.spec_in_bounds(c),
        ensures
            r == (self.spec_at(c) == Space::Mountain),
    {
        self.at(c) == Space::Mountain
    }

    /// Replace the space at `c`; every other space is untouched.
    pub fn set(&mut self, c: Coord, s: Space)
        requires
            old(self).wf(),
            old(self).spec_in_bounds(c),
        ensures
            final(self).wf(),
            final(self).side == old(self).side,
            final(self).spaces@ == old(self).spaces@.update(old(self).idx(c), s),
            final(self).spec_at(c) == s,
            forall|d: Coord|
                old(self).spec_in_bounds(d) && d != c ==> final(self).spec_at(d)
                    == old(self).spec_at(d),
    {
        let n = self.spaces.len();
        proof {
            self.lemma_idx_in_range(c);
        }
        let i = c.x * self.side + c.y;
        self.spaces.set(i, s);
        proof {
            assert forall|d: Coord| old(self).spec_in_bounds(d) && d != c implies self.spec_at(d)
                == old(self).spec_at(d) by {
                old(self).lemma_idx_injective(d, c);
                old(self).lemma_idx_in_range(d);
            }
        }
    }
}

} // verus!
