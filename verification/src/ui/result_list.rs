use vstd::prelude::*;
use super::focus_list::last_index;

verus! {

/// The results a list widget shows, of which one, the focused one, is singled out; how they
/// are drawn and scrolled to is the widget's.
pub struct ResultList<T> {
    items: Vec<T>,
    focused_index: usize,
}

impl<T> ResultList<T> {
    /// The items, in order.
    pub closed spec fn items(&self) -> Seq<T> {
        self.items@
    }

    /// The position of the focused item.
    pub closed spec fn focus(&self) -> int {
        self.focused_index as int
    }

    /// The focus is on an item, or at zero when there is none.
    #[verifier::type_invariant]
    closed spec fn focus_in_range(&self) -> bool {
        self.focused_index == 0 || self.focused_index < self.items@.len()
    }

    /// Moves the items and the focus out, leaving an empty list focused at zero.
    fn take_items(&mut self) -> (r: (Vec<T>, usize))
        ensures
            r.0@ == old(self).items(),
            r.1 == old(self).focus(),
            r.1 == 0 || r.1 < r.0@.len(),
            final(self).items() == Seq::<T>::empty(),
            final(self).focus() == 0,
    {
        proof { use_type_invariant(&*self); }
        let focus = self.focused_index;
        self.focused_index = 0;
        let mut items = Vec::new();
        std::mem::swap(&mut items, &mut self.items);
        (items, focus)
    }

    /// Puts items and a focus back into a list emptied by `take_items`.
    fn put_items(&mut self, items: Vec<T>, focus: usize)
        requires
            old(self).items() == Seq::<T>::empty(),
            focus == 0 || focus < items@.len(),
        ensures
            final(self).items() == items@,
            final(self).focus() == focus,
    {
        proof { use_type_invariant(&*self); }
        let mut items = items;
        std::mem::swap(&mut items, &mut self.items);
        self.focused_index = focus;
    }

    pub fn new() -> (r: Self)
        ensures
            r.items() == Seq::<T>::empty(),
            r.focus() == 0,
    {
        Self { items: Vec::new(), focused_index: 0 }
    }

    /// Moves the focus one item on, from the last back to the first.
    pub fn focus_next(&mut self)
        ensures
            final(self).items() == old(self).items(),
            final(self).focus() == (if old(self).focus() < last_index(old(self).items().len() as int) {
                old(self).focus() + 1
            } else {
                0
            }),
    {
        proof { use_type_invariant(&*self); }
        if self.focused_index < self.items.len().saturating_sub(1) {
            self.focused_index = self.focused_index + 1;
        } else {
            self.focused_index = 0;
        }
    }

    /// Moves the focus one item back, from the first round to the last.
    pub fn focus_previous(&mut self)
        ensures
            final(self).items() == old(self).items(),
            final(self).focus() == (if old(self).focus() > 0 {
                old(self).focus() - 1
            } else {
                last_index(old(self).items().len() as int)
            }),
    {
        proof { use_type_invariant(&*self); }
        if self.focused_index > 0 {
            self.focused_index = self.focused_index - 1;
        } else {
            self.focused_index = self.items.len().saturating_sub(1);
        }
    }

    /// Inserts an item at `index`; the focus follows the item it was on.
    pub fn insert(&mut self, index: usize, item: T)
        requires
            index <= old(self).items().len(),
        ensures
            final(self).items() == old(self).items().insert(index as int, item),
            final(self).focus() == (if index < old(self).items().len() && old(self).focus() >= index {
                old(self).focus() + 1
            } else {
                old(self).focus()
            }),
    {
        let (mut items, mut focus) = self.take_items();
        if index < items.len() && focus >= index {
            focus = focus + 1;
        }
        items.insert(index, item);
        self.put_items(items, focus);
    }

    /// Appends an item; the focus stays.
    pub fn push(&mut self, item: T)
        ensures
            final(self).items() == old(self).items().push(item),
            final(self).focus() == old(self).focus(),
    {
        let (mut items, focus) = self.take_items();
        items.push(item);
        self.put_items(items, focus);
    }

    /// Moves all of `other` to the end of the list.
    pub fn append(&mut self, other: &mut Vec<T>)
        ensures
            final(self).items() == old(self).items() + old(other)@,
            final(other)@ == Seq::<T>::empty(),
            final(self).focus() == old(self).focus(),
    {
        let (mut items, focus) = self.take_items();
        items.append(other);
        self.put_items(items, focus);
    }

    /// Takes out the focused item, where there is one; the focus then stays on the same
    /// position, or the last one.
    pub fn remove(&mut self) -> (r: Option<T>)
        ensures
            old(self).focus() < old(self).items().len() ==> r == Some(old(self).items()[old(self).focus()])
                && final(self).items() == old(self).items().remove(old(self).focus()),
            old(self).focus() >= old(self).items().len() ==> r is None && final(self).items() == old(
                self,
            ).items(),
            final(self).focus() == (if old(self).focus() <= last_index(final(self).items().len() as int) {
                old(self).focus()
            } else {
                last_index(final(self).items().len() as int)
            }),
    {
        let (mut items, mut focus) = self.take_items();
        let item = if focus < items.len() {
            Some(items.remove(focus))
        } else {
            None
        };
        let last = items.len().saturating_sub(1);
        if last < focus {
            focus = last;
        }
        self.put_items(items, focus);
        item
    }

    /// Takes out all items, in order, and puts the focus at zero.
    pub fn drain(&mut self) -> (r: Vec<T>)
        ensures
            r@ == old(self).items(),
            final(self).items() == Seq::<T>::empty(),
            final(self).focus() == 0,
    {
        let (items, _focus) = self.take_items();
        items
    }

    pub fn len(&self) -> (r: usize)
        ensures
            r == self.items().len(),
    {
        self.items.len()
    }

    pub fn get_focused(&self) -> (r: Option<&T>)
        ensures
            self.focus() < self.items().len() ==> r == Some(&self.items()[self.focus()]),
            self.focus() >= self.items().len() ==> r is None,
    {
        if self.focused_index < self.items.len() {
            Some(&self.items[self.focused_index])
        } else {
            None
        }
    }

    pub fn get(&self, index: usize) -> (r: Option<&T>)
        ensures
            index < self.items().len() ==> r == Some(&self.items()[index as int]),
            index >= self.items().len() ==> r is None,
    {
        if index < self.items.len() {
            Some(&self.items[index])
        } else {
            None
        }
    }

    pub fn get_mut(&mut self, index: usize) -> (r: Option<&mut T>)
        ensures
            index < old(self).items().len() ==> r is Some && *r.unwrap() == old(self).items()[index as int]
                && final(self).items() == old(self).items().update(index as int, *final(r.unwrap())),
            index >= old(self).items().len() ==> r is None && final(self).items() == old(self).items(),
            final(self).focus() == old(self).focus(),
    {
        proof { use_type_invariant(&*self); }
        if index < self.items.len() {
            Some(&mut self.items[index])
        } else {
            None
        }
    }

    pub fn get_focused_mut(&mut self) -> (r: Option<&mut T>)
        ensures
            old(self).focus() < old(self).items().len() ==> r is Some && *r.unwrap() == old(
                self,
            ).items()[old(self).focus()] && final(self).items() == old(self).items().update(
                old(self).focus(),
                *final(r.unwrap()),
            ),
            old(self).focus() >= old(self).items().len() ==> r is None && final(self).items() == old(
                self,
            ).items(),
            final(self).focus() == old(self).focus(),
    {
        let index = self.focused_index;
        self.get_mut(index)
    }

    pub fn is_empty(&self) -> (r: bool)
        ensures
            r == (self.items().len() == 0),
    {
        self.items.is_empty()
    }

    /// Puts the focus on `index`, or on the last item where `index` is past it.
    pub fn set_focused_index(&mut self, index: usize)
        ensures
            final(self).items() == old(self).items(),
            final(self).focus() == (if index <= last_index(old(self).items().len() as int) {
                index as int
            } else {
                last_index(old(self).items().len() as int)
            }),
    {
        let last = self.items.len().saturating_sub(1);
        if index <= last {
            self.focused_index = index;
        } else {
            self.focused_index = last;
        }
    }

    /// The position of the focused item: on an item, or zero when there is none.
    pub fn focused_index(&self) -> (r: usize)
        ensures
            r == self.focus(),
            r == 0 || r < self.items().len(),
    {
        proof { use_type_invariant(self); }
        self.focused_index
    }

    /// Takes out all items and puts the focus at zero.
    pub fn reset(&mut self)
        ensures
            final(self).items() == Seq::<T>::empty(),
            final(self).focus() == 0,
    {
        self.drain();
    }
}

} // verus!
