use vstd::prelude::*;

verus! {

/// A way to name an offset: the current position, an absolute position, or
/// a distance behind or ahead of the current position.
#[derive(Debug, Clone, Copy, PartialEq, Eq, Structural)]
pub enum Direction {
    Current,
    Pos(usize),
    Prev(usize),
    Next(usize),
}

impl Direction {
    /// Whether the offset can be computed from `pos` without leaving `usize`.
    pub open spec fn resolvable(self, pos: int) -> bool {
        match self {
            Direction::Current => true,
            Direction::Pos(_) => true,
            Direction::Prev(u) => u <= pos,
            Direction::Next(u) => pos + u <= usize::MAX,
        }
    }

    /// The offset this names when the current position is `pos`.
    pub open spec fn spec_resolve(self, pos: int) -> int {
        match self {
            Direction::Current => pos,
            Direction::Pos(u) => u as int,
            Direction::Prev(u) => pos - u,
            Direction::Next(u) => pos + u,
        }
    }

    pub fn resolve(&self, pos: usize) -> (r: usize)
        requires
            self.resolvable(pos as int),
        ensures
            r == self.spec_resolve(pos as int),
    {
        match self {
            Direction::Current => pos,
            Direction::Pos(u) => *u,
            Direction::Next(u) => pos + *u,
            Direction::Prev(u) => pos - *u,
        }
    }
}

} // verus!
