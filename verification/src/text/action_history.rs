use vstd::prelude::*;
use crate::position::Position;

verus! {

#[derive(Clone, Copy, Debug, PartialEq, Eq, Structural)]
pub enum ActionKind {
    Done,
    Undone,
    Redone,
}

/// The kind of the action that undoes or redoes an action of kind `k`.
pub open spec fn reversed(k: ActionKind) -> ActionKind {
    match k {
        ActionKind::Done | ActionKind::Redone => ActionKind::Undone,
        ActionKind::Undone => ActionKind::Redone,
    }
}

impl ActionKind {
    pub fn reverse(self) -> (r: Self)
        ensures
            r == reversed(self),
    {
        match self {
            ActionKind::Done | ActionKind::Redone => ActionKind::Undone,
            ActionKind::Undone => ActionKind::Redone,
        }
    }
}

/// Reversing never yields `Done`; reversing twice brings an undone action back to `Undone`
/// and any other to `Redone`.
pub proof fn law_reverse_kind(k: ActionKind)
    ensures
        reversed(k) != ActionKind::Done,
        reversed(reversed(k)) == (if k == ActionKind::Undone { ActionKind::Undone } else { ActionKind::Redone }),
{
}

#[derive(Clone, Copy, Debug)]
pub enum Action {
    SetCursor { index: usize, position: Position, selection_anchor: Option<Position> },
    Insert { start: Position, end: Position },
    Delete { start: Position, text_start: usize },
}

} // verus!
