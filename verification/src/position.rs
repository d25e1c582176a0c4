use vstd::prelude::*;

verus! {

/// A place in a document: `x` is a byte offset into line `y`.
#[derive(Debug, Clone, Copy, PartialEq, Eq, Structural)]
pub struct Position {
    pub x: usize,
    pub y: usize,
}

/// Positions are ordered by line, then by offset within the line.
pub open spec fn pos_lt(a: Position, b: Position) -> bool {
    a.y < b.y || (a.y == b.y && a.x < b.x)
}

/// `a` is not after `b`.
pub open spec fn pos_le(a: Position, b: Position) -> bool {
    pos_lt(a, b) || a == b
}

/// The earlier of two positions.
pub open spec fn pos_min(a: Position, b: Position) -> Position {
    if pos_le(a, b) { a } else { b }
}

/// The later of two positions.
pub open spec fn pos_max(a: Position, b: Position) -> Position {
    if pos_le(a, b) { b } else { a }
}

impl Position {
    /// The start of a document.
    pub fn zero() -> (r: Self)
        ensures
            r.x == 0 && r.y == 0,
    {
        Self { x: 0, y: 0 }
    }

    pub fn new(x: usize, y: usize) -> (r: Self)
        ensures
            r.x == x,
            r.y == y,
    {
        Self { x, y }
    }

    /// Whether `self` comes before `other`.
    pub fn is_before(&self, other: &Position) -> (r: bool)
        ensures
            r == pos_lt(*self, *other),
    {
        self.y < other.y || (self.y == other.y && self.x < other.x)
    }

    /// The earlier of two positions.
    pub fn min(self, other: Position) -> (r: Position)
        ensures
            r == pos_min(self, other),
    {
        if self.is_before(&other) || self == other { self } else { other }
    }

    /// The later of two positions.
    pub fn max(self, other: Position) -> (r: Position)
        ensures
            r == pos_max(self, other),
    {
        if self.is_before(&other) || self == other { other } else { self }
    }
}

} // verus!
