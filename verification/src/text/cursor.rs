use vstd::prelude::*;
use crate::position::{Position, pos_lt};
use super::selection::Selection;

verus! {

#[derive(Clone, Debug)]
pub struct Cursor {
    pub position: Position,
    pub selection_anchor: Option<Position>,
    pub desired_visual_x: usize,
}

/// The span a cursor selects: from the earlier to the later of its anchor and its position;
/// none without an anchor or where the two meet.
pub open spec fn selection_of(c: Cursor) -> Option<Selection> {
    match c.selection_anchor {
        None => None,
        Some(anchor) => if pos_lt(anchor, c.position) {
            Some(Selection { start: anchor, end: c.position })
        } else if pos_lt(c.position, anchor) {
            Some(Selection { start: c.position, end: anchor })
        } else {
            None
        },
    }
}

impl Cursor {
    pub fn new(position: Position, desired_visual_x: usize) -> (r: Self)
        ensures
            r.position == position,
            r.selection_anchor is None,
            r.desired_visual_x == desired_visual_x,
    {
        Self { position, selection_anchor: None, desired_visual_x }
    }

    /// The selected span, from the earlier to the later of the anchor and the position;
    /// none without an anchor or where the two meet.
    pub fn get_selection(&self) -> (r: Option<Selection>)
        ensures
            r == selection_of(*self),
            r matches Some(s) ==> pos_lt(s.start, s.end),
    {
        let selection_anchor = match self.selection_anchor {
            Some(a) => a,
            None => {
                return None;
            },
        };
        if selection_anchor.is_before(&self.position) {
            Some(Selection { start: selection_anchor, end: self.position })
        } else if self.position.is_before(&selection_anchor) {
            Some(Selection { start: self.position, end: selection_anchor })
        } else {
            None
        }
    }
}

} // verus!
