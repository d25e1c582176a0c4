use vstd::prelude::*;
use crate::position::Position;
use crate::ui::slot_list::{SlotId, SlotList};

verus! {

/// How far, in lines, the cursor may move within a document before the place it left is
/// remembered.
pub const CURSOR_POSITION_HISTORY_THRESHOLD: usize = 10;

struct CursorHistoryItem {
    position: Position,
    doc_id: SlotId,
}

/// The places the cursor was at, to go back and forth between.
pub struct CursorHistory {
    undo_history: Vec<CursorHistoryItem>,
    redo_history: Vec<CursorHistoryItem>,
    did_just_undo_redo: bool,
}

/// The distance between two line numbers.
pub open spec fn line_distance(a: usize, b: usize) -> int {
    if a >= b { a - b } else { b - a }
}

/// The places of the items of a history.
spec fn places_of(v: Seq<CursorHistoryItem>) -> Seq<(Position, SlotId)> {
    v.map_values(|i: CursorHistoryItem| (i.position, i.doc_id))
}

/// The last of `places` whose document is still in `docs`.
pub open spec fn last_live<T>(places: Seq<(Position, SlotId)>, docs: Map<SlotId, T>) -> Option<int>
    decreases places.len(),
{
    if places.len() == 0 {
        None
    } else if docs.contains_key(places.last().1) {
        Some(places.len() - 1)
    } else {
        last_live(places.drop_last(), docs)
    }
}

/// The last of the places is whose document is still open, found by dropping from the end.
proof fn lemma_last_live_drop<T>(places: Seq<(Position, SlotId)>, docs: Map<SlotId, T>)
    requires
        places.len() > 0,
        !docs.contains_key(places.last().1),
    ensures
        last_live(places, docs) == last_live(places.drop_last(), docs),
{
}

/// Where a step through the history goes: the current place is put on the other history;
/// places are taken from the end of this one until one whose document is still open, which
/// is the place to go to; those taken before it are dropped.
pub open spec fn stepped<T>(
    from: Seq<(Position, SlotId)>,
    to: Seq<(Position, SlotId)>,
    current: Option<(Position, SlotId)>,
    docs: Map<SlotId, T>,
) -> (Seq<(Position, SlotId)>, Seq<(Position, SlotId)>, Option<(Position, SlotId)>) {
    if from.len() == 0 || current is None {
        (from, to, None)
    } else {
        match last_live(from, docs) {
            Some(j) => (from.subrange(0, j), to.push(current->0), Some(from[j])),
            None => (Seq::empty(), to.push(current->0), None),
        }
    }
}

impl CursorHistory {
    /// The remembered places to go back to, oldest first.
    pub closed spec fn undo_places(&self) -> Seq<(Position, SlotId)> {
        places_of(self.undo_history@)
    }

    /// The places to go forward to again, oldest first.
    pub closed spec fn redo_places(&self) -> Seq<(Position, SlotId)> {
        places_of(self.redo_history@)
    }

    /// Whether the last move was a step through the history itself.
    pub closed spec fn just_moved(&self) -> bool {
        self.did_just_undo_redo
    }

    pub fn new() -> (r: Self)
        ensures
            r.undo_places() == Seq::<(Position, SlotId)>::empty(),
            r.redo_places() == Seq::<(Position, SlotId)>::empty(),
            !r.just_moved(),
    {
        let r = Self { undo_history: Vec::new(), redo_history: Vec::new(), did_just_undo_redo: false };
        proof {
            assert(r.undo_places() =~= Seq::<(Position, SlotId)>::empty());
            assert(r.redo_places() =~= Seq::<(Position, SlotId)>::empty());
        }
        r
    }

    /// Takes note of a cursor move from the last place to a new one. The last place is
    /// remembered (and what could be gone forward to is forgotten) unless the move came from
    /// the history itself, there is no last place, or it stays within a few lines of the
    /// same document; `Some` says that it was.
    pub fn update(
        &mut self,
        last_doc_id: Option<SlotId>,
        doc_id: SlotId,
        last_position: Option<Position>,
        position: Position,
    ) -> (r: Option<()>)
        ensures
            !final(self).just_moved(),
            old(self).just_moved() ==> r is None,
            r is Some <==> (!old(self).just_moved() && last_position is Some && last_doc_id is Some && !(doc_id
                == last_doc_id->0 && line_distance(position.y, last_position->0.y)
                < CURSOR_POSITION_HISTORY_THRESHOLD)),
            r is Some ==> final(self).undo_places() == old(self).undo_places().push(
                (last_position->0, last_doc_id->0),
            ) && final(self).redo_places() == Seq::<(Position, SlotId)>::empty(),
            r is None ==> final(self).undo_places() == old(self).undo_places() && final(self).redo_places()
                == old(self).redo_places(),
    {
        if self.did_just_undo_redo {
            self.did_just_undo_redo = false;
            return None;
        }
        let last_position = match last_position {
            Some(p) => p,
            None => {
                return None;
            },
        };
        let last_doc_id = match last_doc_id {
            Some(d) => d,
            None => {
                return None;
            },
        };
        let distance = if position.y >= last_position.y {
            position.y - last_position.y
        } else {
            last_position.y - position.y
        };
        if doc_id == last_doc_id && distance < CURSOR_POSITION_HISTORY_THRESHOLD {
            return None;
        }
        let ghost undo0 = self.undo_places();
        self.redo_history.clear();
        self.undo_history.push(CursorHistoryItem { position: last_position, doc_id: last_doc_id });
        proof {
            assert(self.undo_places() =~= undo0.push((last_position, last_doc_id)));
            assert(self.redo_places() =~= Seq::<(Position, SlotId)>::empty());
        }
        Some(())
    }

    /// Takes places from the end of `pop_history` until one whose document is in `doc_list`,
    /// after putting the current place on `push_history`, and returns the place to go to.
    fn pop_item<T>(
        pop_history: &mut Vec<CursorHistoryItem>,
        push_history: &mut Vec<CursorHistoryItem>,
        current: Option<(Position, SlotId)>,
        doc_list: &SlotList<T>,
    ) -> (r: Option<(Position, SlotId)>)
        ensures
            ({
                let (from, to, place) = stepped(places_of(old(pop_history)@), places_of(old(push_history)@), current, doc_list@);
                &&& places_of(final(pop_history)@) == from
                &&& places_of(final(push_history)@) == to
                &&& r == place
            }),
    {
        let ghost from0 = places_of(pop_history@);
        if pop_history.len() == 0 {
            return None;
        }
        let (position, doc_id) = match current {
            Some(place) => place,
            None => {
                return None;
            },
        };
        let ghost to0 = push_history@;
        push_history.push(CursorHistoryItem { position, doc_id });
        proof {
            assert(places_of(push_history@) =~= places_of(to0).push((position, doc_id)));
        }
        while pop_history.len() > 0
            invariant
                from0.len() > 0,
                from0 == places_of(old(pop_history)@),
                to0 == old(push_history)@,
                current == Some((position, doc_id)),
                places_of(push_history@) == places_of(to0).push((position, doc_id)),
                pop_history@.len() <= from0.len(),
                places_of(pop_history@) == from0.subrange(
                    0,
                    pop_history@.len() as int,
                ),
                last_live(from0, doc_list@) == last_live(
                    places_of(pop_history@),
                    doc_list@,
                ),
            decreases pop_history@.len(),
        {
            let ghost before = places_of(pop_history@);
            let item = match pop_history.pop() {
                Some(item) => item,
                None => {
                    return None;
                },
            };
            proof {
                assert(places_of(pop_history@) =~= before.drop_last());
            }
            if doc_list.get(item.doc_id).is_some() {
                proof {
                    assert(before.last() == (item.position, item.doc_id));
                    assert(last_live(before, doc_list@) == Some(before.len() - 1));
                    assert(from0.subrange(0, before.len() - 1) =~= before.drop_last());
                    assert(from0[before.len() - 1] == before.last());
                }
                return Some((item.position, item.doc_id));
            }
            proof {
                lemma_last_live_drop(before, doc_list@);
            }
        }
        proof {
            assert(places_of(pop_history@) =~= Seq::<(Position, SlotId)>::empty());
        }
        None
    }

    /// Steps back to the last place whose document is still open, from the `current` place
    /// (none where no document is in view), and returns the place to go to.
    pub fn undo<T>(&mut self, current: Option<(Position, SlotId)>, doc_list: &SlotList<T>) -> (r: Option<(Position, SlotId)>)
        ensures
            final(self).just_moved(),
            ({
                let (from, to, place) = stepped(old(self).undo_places(), old(self).redo_places(), current, doc_list@);
                &&& final(self).undo_places() == from
                &&& final(self).redo_places() == to
                &&& r == place
            }),
    {
        self.did_just_undo_redo = true;
        Self::pop_item(&mut self.undo_history, &mut self.redo_history, current, doc_list)
    }

    /// Steps forward again to the last place undone whose document is still open, from the
    /// `current` place, and returns the place to go to.
    pub fn redo<T>(&mut self, current: Option<(Position, SlotId)>, doc_list: &SlotList<T>) -> (r: Option<(Position, SlotId)>)
        ensures
            final(self).just_moved(),
            ({
                let (from, to, place) = stepped(old(self).redo_places(), old(self).undo_places(), current, doc_list@);
                &&& final(self).redo_places() == from
                &&& final(self).undo_places() == to
                &&& r == place
            }),
    {
        self.did_just_undo_redo = true;
        Self::pop_item(&mut self.redo_history, &mut self.undo_history, current, doc_list)
    }
}

} // verus!
