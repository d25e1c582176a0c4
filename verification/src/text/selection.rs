use vstd::prelude::*;
use crate::position::{Position, pos_min, pos_max, pos_le, pos_lt};

verus! {

#[derive(Clone, Copy, Debug, PartialEq, Eq, Structural)]
pub struct Selection {
    pub start: Position,
    pub end: Position,
}

/// The smallest span covering both selections, where there are any.
pub open spec fn union_spec(a: Option<Selection>, b: Option<Selection>) -> Option<Selection> {
    match (a, b) {
        (None, b) => b,
        (Some(a), None) => Some(a),
        (Some(a), Some(b)) => Some(
            Selection { start: pos_min(a.start, b.start), end: pos_max(a.end, b.end) },
        ),
    }
}

/// A selection without a last line of which nothing is selected.
pub open spec fn selection_trimmed(s: Selection) -> Selection {
    if s.end.y > s.start.y && s.end.x == 0 {
        Selection { start: s.start, end: Position { x: s.end.x, y: (s.end.y - 1) as usize } }
    } else {
        s
    }
}

impl Selection {
    pub fn union(a: Option<Self>, b: Option<Self>) -> (r: Option<Self>)
        ensures
            r == union_spec(a, b),
    {
        let a = match a {
            Some(a) => a,
            None => {
                return b;
            },
        };
        let b = match b {
            Some(b) => b,
            None => {
                return Some(a);
            },
        };
        Some(Self { start: a.start.min(b.start), end: a.end.max(b.end) })
    }

    /// Leaves out a last line of which nothing is selected.
    pub fn trim(&self) -> (r: Self)
        ensures
            r == selection_trimmed(*self),
    {
        let mut result = *self;
        if self.end.y > self.start.y && self.end.x == 0 {
            result.end.y = result.end.y - 1;
        }
        result
    }
}

/// Union does not depend on the order of its arguments, nor on how three are grouped, and
/// `None` changes nothing.
pub proof fn law_union(a: Option<Selection>, b: Option<Selection>, c: Option<Selection>)
    ensures
        union_spec(a, b) == union_spec(b, a),
        union_spec(union_spec(a, b), c) == union_spec(a, union_spec(b, c)),
        union_spec(a, None) == a,
        union_spec(None, a) == a,
{
}

} // verus!
