use vstd::prelude::*;

verus! {

/// One automaton unit: an alive flag, the neighbour count cached for the
/// current generation, and the x coordinate of the column it occupies.
#[derive(Clone, Copy, PartialEq, Eq, Structural)]
pub struct Cell {
    pub is_alive: bool,
    pub neighbours: u8,
    pub x: isize,
}

/// The fixed transition rule (classic B3/S23 Life): a live cell survives
/// exactly when it has two or three live neighbours, a dead cell is born
/// exactly when it has three.
pub open spec fn step_alive(alive: bool, n: int) -> bool {
    if alive {
        n == 2 || n == 3
    } else {
        n == 3
    }
}

impl Cell {
    pub fn new(x: isize, is_alive: bool) -> (c: Cell)
        ensures
            c.x == x,
            c.is_alive == is_alive,
            c.neighbours == 0,
    {
        Cell { is_alive, neighbours: 0, x }
    }

    /// Records the neighbour count computed during the evaluation phase.
    pub fn update(&mut self, neighbours: u8)
        ensures
            final(self).neighbours == neighbours,
            final(self).is_alive == old(self).is_alive,
            final(self).x == old(self).x,
    {
        self.neighbours = neighbours;
    }

    /// Applies the transition rule using the cached neighbour count and
    /// reports whether the alive flag flipped.
    pub fn next(&mut self) -> (changed: bool)
        ensures
            final(self).is_alive == step_alive(old(self).is_alive, old(self).neighbours as int),
            final(self).neighbours == old(self).neighbours,
            final(self).x == old(self).x,
            changed == (final(self).is_alive != old(self).is_alive),
    {
        if self.is_alive {
            if self.neighbours <= 1 || self.neighbours >= 4 {
                self.is_alive = false;
                return true;
            }
        } else {
            if self.neighbours == 3 {
                self.is_alive = true;
                return true;
            }
        }
        false
    }
}

} // verus!
