use vstd::prelude::*;

use super::direction::Direction;

verus! {

/// Values that name an offset relative to a current position.
pub trait ToDirection: Sized {
    /// Whether the offset can be computed from `pos` without leaving `usize`.
    spec fn resolvable(&self, pos: int) -> bool;

    /// The offset this names when the current position is `pos`.
    spec fn spec_resolve(&self, pos: int) -> int;

    fn resolve(self, pos: usize) -> (r: usize)
        requires
            self.resolvable(pos as int),
        ensures
            r == self.spec_resolve(pos as int),
    ;
}

impl ToDirection for Direction {
    open spec fn resolvable(&self, pos: int) -> bool {
        Direction::resolvable(*self, pos)
    }

    open spec fn spec_resolve(&self, pos: int) -> int {
        Direction::spec_resolve(*self, pos)
    }

    fn resolve(self, pos: usize) -> (r: usize) {
        Direction::resolve(&self, pos)
    }
}

/// A signed distance from the current position: zero is the position
/// itself, a negative number lies behind it, a positive one ahead.
impl ToDirection for i32 {
    open spec fn resolvable(&self, pos: int) -> bool {
        0 <= pos + *self <= usize::MAX
    }

    open spec fn spec_resolve(&self, pos: int) -> int {
        pos + *self
    }

    fn resolve(self, pos: usize) -> (r: usize) {
        if self == 0 {
            Direction::Current.resolve(pos)
        } else if self < 0 {
            Direction::Prev((-(self as i64)) as usize).resolve(pos)
        } else {
            Direction::Next(self as usize).resolve(pos)
        }
    }
}

} // verus!
