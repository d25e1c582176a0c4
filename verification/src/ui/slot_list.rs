use vstd::prelude::*;

verus! {

/// Names an item of a `SlotList`: the slot it lies in and how many items that slot had
/// lost before it came.
#[derive(Debug, Clone, Copy, PartialEq, Eq, Structural)]
pub struct SlotId {
    index: usize,
    generation: usize,
}

impl SlotId {
    /// The first slot's first item.
    pub fn zero() -> (r: Self)
        ensures
            r.slot() == 0,
            r.generation() == 0,
    {
        Self::new(0, 0)
    }

    fn new(index: usize, generation: usize) -> (r: Self)
        ensures
            r.slot() == index,
            r.generation() == generation,
    {
        Self { index, generation }
    }

    /// The slot the item lies in.
    pub closed spec fn slot(&self) -> usize {
        self.index
    }

    /// How many items the slot had lost when the item came.
    pub closed spec fn generation(&self) -> usize {
        self.generation
    }
}

struct Slot<T> {
    item: Option<T>,
    generation: usize,
}

/// Whether the free list names distinct empty slots.
spec fn slots_wf<T>(slots: Seq<Slot<T>>, unused: Seq<usize>) -> bool {
    &&& forall|i: int| 0 <= i < unused.len() ==> #[trigger] unused[i] < slots.len()
    &&& forall|i: int| 0 <= i < unused.len() ==> (#[trigger] slots[unused[i] as int]).item is None
    &&& forall|i: int, j: int| 0 <= i < j < unused.len() ==> unused[i] != unused[j]
}

/// Like a `Vec`, but an item keeps its place for as long as it stays in the list, and the
/// id that named it names nothing once it is gone.
pub struct SlotList<T> {
    slots: Vec<Slot<T>>,
    unused_slot_indices: Vec<usize>,
}

impl<T> View for SlotList<T> {
    type V = Map<SlotId, T>;

    /// The items in the list, by their ids.
    closed spec fn view(&self) -> Map<SlotId, T> {
        Map::new(
            |id: SlotId| self.live(id),
            |id: SlotId| self.slots@[id.index as int].item->0,
        )
    }
}

impl<T> SlotList<T> {
    closed spec fn live(&self, id: SlotId) -> bool {
        &&& id.index < self.slots@.len()
        &&& self.slots@[id.index as int].generation == id.generation
        &&& self.slots@[id.index as int].item is Some
    }

    /// Every id the list has handed out: for each slot, its earlier generations, and its
    /// present one while it holds an item.
    pub closed spec fn issued(&self) -> Set<SlotId> {
        Set::new(
            |id: SlotId|
                id.index < self.slots@.len() && (id.generation < self.slots@[id.index as int].generation || (
                id.generation == self.slots@[id.index as int].generation && self.slots@[id.index as int].item is Some)),
        )
    }

    /// The emptied slots that `add` fills again, the one it fills next last.
    pub closed spec fn free_slots(&self) -> Seq<usize> {
        self.unused_slot_indices@
    }

    /// How many slots the list has made.
    pub closed spec fn slot_count(&self) -> nat {
        self.slots@.len()
    }

    /// The ids of the items in the list are among those it handed out.
    pub proof fn lemma_live_ids_issued(&self)
        ensures
            forall|id: SlotId| #[trigger] self@.contains_key(id) ==> self.issued().contains(id),
    {
    }

    /// `remove` may be called with an id the list handed out, where the id names an item only
    /// if the slot's generation can still be counted up.
    pub proof fn lemma_issued_can_remove(&self, id: SlotId)
        requires
            self.issued().contains(id),
            self@.contains_key(id) ==> id.generation() < usize::MAX,
        ensures
            self.can_remove(id),
    {
    }

    #[verifier::type_invariant]
    closed spec fn free_list_wf(&self) -> bool {
        slots_wf(self.slots@, self.unused_slot_indices@)
    }

    /// Whether `remove` may be called with `id`: the id does not name the first slot past
    /// the end, and where it names a slot at its present generation, that slot holds an
    /// item whose removal can still be counted.
    pub closed spec fn can_remove(&self, id: SlotId) -> bool {
        &&& id.index != self.slots@.len()
        &&& (id.index < self.slots@.len() && self.slots@[id.index as int].generation == id.generation)
            ==> (self.slots@[id.index as int].item is Some && self.slots@[id.index as int].generation
            < usize::MAX)
    }

    pub fn new() -> (r: Self)
        ensures
            r@ == Map::<SlotId, T>::empty(),
            r.issued() == Set::<SlotId>::empty(),
            r.free_slots() == Seq::<usize>::empty(),
            r.slot_count() == 0,
    {
        let r = Self { slots: Vec::new(), unused_slot_indices: Vec::new() };
        assert(r@ =~= Map::<SlotId, T>::empty());
        assert(r.issued() =~= Set::<SlotId>::empty());
        r
    }

    /// Moves the slots and the free list out, leaving an empty list.
    fn take_parts(&mut self) -> (r: (Vec<Slot<T>>, Vec<usize>))
        ensures
            r.0@ == old(self).slots@,
            r.1@ == old(self).unused_slot_indices@,
            slots_wf(r.0@, r.1@),
            final(self).slots@.len() == 0,
            final(self).unused_slot_indices@.len() == 0,
    {
        proof { use_type_invariant(&*self); }
        let mut slots = Vec::new();
        let mut unused = Vec::new();
        std::mem::swap(&mut unused, &mut self.unused_slot_indices);
        std::mem::swap(&mut slots, &mut self.slots);
        (slots, unused)
    }

    /// Puts the parts back into a list emptied by `take_parts`.
    fn put_parts(&mut self, slots: Vec<Slot<T>>, unused: Vec<usize>)
        requires
            old(self).slots@.len() == 0,
            old(self).unused_slot_indices@.len() == 0,
            slots_wf(slots@, unused@),
        ensures
            final(self).slots@ == slots@,
            final(self).unused_slot_indices@ == unused@,
    {
        let mut slots = slots;
        let mut unused = unused;
        std::mem::swap(&mut slots, &mut self.slots);
        std::mem::swap(&mut unused, &mut self.unused_slot_indices);
    }

    /// Puts an item in the list, in the most recently emptied slot where there is one, and
    /// returns the id that names it.
    pub fn add(&mut self, item: T) -> (id: SlotId)
        ensures
            !old(self)@.contains_key(id),
            final(self)@ == old(self)@.insert(id, item),
            !old(self).issued().contains(id),
            final(self).issued() == old(self).issued().insert(id),
            old(self).free_slots().len() > 0 ==> id.slot() == old(self).free_slots().last()
                && final(self).free_slots() == old(self).free_slots().drop_last()
                && final(self).slot_count() == old(self).slot_count(),
            old(self).free_slots().len() == 0 ==> id.slot() == old(self).slot_count() && id.generation() == 0
                && final(self).free_slots() == old(self).free_slots()
                && final(self).slot_count() == old(self).slot_count() + 1,
    {
        let (mut slots, mut unused) = self.take_parts();
        let ghost old_slots = slots@;
        let ghost old_unused = unused@;
        let id = match unused.pop() {
            Some(index) => {
                proof {
                    assert(old_unused[old_unused.len() - 1] == index);
                }
                let slot = &mut slots[index];
                slot.item = Some(item);
                let id = SlotId { index, generation: slot.generation };
                proof {
                    assert forall|i: int| 0 <= i < unused@.len() implies #[trigger] unused@[i] != index by {
                        assert(old_unused[i] == unused@[i]);
                    }
                    assert forall|i: int| 0 <= i < unused@.len() implies (#[trigger] slots@[unused@[i] as int]).item is None by {
                        assert(old_unused[i] == unused@[i]);
                    }
                }
                id
            },
            None => {
                let index = slots.len();
                slots.push(Slot { item: Some(item), generation: 0 });
                SlotId { index, generation: 0 }
            },
        };
        self.put_parts(slots, unused);
        proof {
            assert(self@ =~= old(self)@.insert(id, item));
            assert(self.issued() =~= old(self).issued().insert(id));
        }
        id
    }

    /// Takes out the item that `id` names, where it names one.
    pub fn remove(&mut self, id: SlotId) -> (r: Option<T>)
        requires
            old(self).can_remove(id),
        ensures
            r == (if old(self)@.contains_key(id) { Some(old(self)@[id]) } else { None::<T> }),
            final(self)@ == old(self)@.remove(id),
            final(self).issued() == old(self).issued(),
            final(self).slot_count() == old(self).slot_count(),
            final(self).free_slots() == if old(self)@.contains_key(id) {
                old(self).free_slots().push(id.slot())
            } else {
                old(self).free_slots()
            },
    {
        let (mut slots, mut unused) = self.take_parts();
        if id.index > slots.len() {
            self.put_parts(slots, unused);
            proof {
                assert(self@ =~= old(self)@.remove(id));
                assert(self.issued() =~= old(self).issued());
            }
            return None;
        }
        if slots[id.index].generation != id.generation {
            self.put_parts(slots, unused);
            proof {
                assert(self@ =~= old(self)@.remove(id));
                assert(self.issued() =~= old(self).issued());
            }
            return None;
        }
        let ghost old_unused = unused@;
        proof {
            assert forall|i: int| 0 <= i < old_unused.len() implies #[trigger] old_unused[i] != id.index by {
                assert(slots@[old_unused[i] as int].item is None);
            }
        }
        let slot = &mut slots[id.index];
        let item = slot.item.take();
        slot.generation = slot.generation + 1;
        unused.push(id.index);
        proof {
            assert forall|i: int, j: int| 0 <= i < j < unused@.len() implies unused@[i] != unused@[j] by {
                if j == unused@.len() - 1 {
                    assert(old_unused[i] != id.index);
                }
            }
            assert forall|i: int| 0 <= i < unused@.len() implies (#[trigger] slots@[unused@[i] as int]).item is None by {
                if i < old_unused.len() {
                    assert(unused@[i] == old_unused[i]);
                }
            }
        }
        self.put_parts(slots, unused);
        proof {
            assert(self@ =~= old(self)@.remove(id));
            assert(self.issued() =~= old(self).issued());
        }
        item
    }

    /// Whether `ids` lists the ids of the list's items, each once, by increasing slot.
    pub open spec fn lists_ids(&self, ids: Seq<SlotId>) -> bool {
        &&& forall|i: int| 0 <= i < ids.len() ==> self@.contains_key(#[trigger] ids[i])
        &&& forall|i: int, j: int| 0 <= i < j < ids.len() ==> (#[trigger] ids[i]).slot() < (#[trigger] ids[j]).slot()
        &&& forall|id: SlotId| #[trigger] self@.contains_key(id) ==> exists|i: int| 0 <= i < ids.len() && ids[i] == id
    }

    /// The ids of the list's items, by increasing slot.
    pub closed spec fn listing(&self) -> Seq<SlotId> {
        choose|ids: Seq<SlotId>| self.lists_ids(ids)
    }

    /// Two listings of the ids agree up to `i`.
    proof fn lemma_listings_agree(&self, a: Seq<SlotId>, b: Seq<SlotId>, i: int)
        requires
            self.lists_ids(a),
            self.lists_ids(b),
            0 <= i < a.len(),
            i < b.len(),
        ensures
            forall|k: int| 0 <= k <= i ==> a[k] == b[k],
        decreases i,
    {
        if i > 0 {
            self.lemma_listings_agree(a, b, i - 1);
        }
        assert(self@.contains_key(a[i]));
        assert(self@.contains_key(b[i]));
        let j = choose|j: int| 0 <= j < b.len() && b[j] == a[i];
        let l = choose|l: int| 0 <= l < a.len() && a[l] == b[i];
        if j < i {
            assert(b[j] == a[j]);
            assert(a[j].slot() < a[i].slot());
        }
        if l < i {
            assert(a[l] == b[l]);
            assert(b[l].slot() < b[i].slot());
        }
        if j != i && l != i {
            assert(b[i].slot() < b[j].slot());
            assert(a[i].slot() < a[l].slot());
        }
    }

    /// The ids of the list's items have but one listing by increasing slot.
    proof fn lemma_listing_unique(&self, a: Seq<SlotId>, b: Seq<SlotId>)
        requires
            self.lists_ids(a),
            self.lists_ids(b),
        ensures
            a == b,
    {
        if a.len() > 0 && b.len() > 0 {
            let m = if a.len() <= b.len() { a.len() - 1 } else { b.len() - 1 };
            self.lemma_listings_agree(a, b, m as int);
        }
        if a.len() > b.len() {
            let x = a[b.len() as int];
            assert(self@.contains_key(x));
            let j = choose|j: int| 0 <= j < b.len() && b[j] == x;
            assert(a[j] == b[j]);
            assert(a[j].slot() < a[b.len() as int].slot());
        }
        if b.len() > a.len() {
            let x = b[a.len() as int];
            assert(self@.contains_key(x));
            let j = choose|j: int| 0 <= j < a.len() && a[j] == x;
            assert(a[j] == b[j]);
            assert(b[j].slot() < b[a.len() as int].slot());
        }
        assert(a =~= b);
    }

    /// The item that `id` names, to change in place, where it names one.
    pub fn get_mut(&mut self, id: SlotId) -> (r: Option<&mut T>)
        ensures
            old(self)@.contains_key(id) ==> r is Some && *r.unwrap() == old(self)@[id]
                && final(self)@ == old(self)@.insert(id, *final(r.unwrap())),
            !old(self)@.contains_key(id) ==> r is None && final(self)@ == old(self)@,
    {
        proof { use_type_invariant(&*self); }
        if id.index < self.slots.len() && self.slots[id.index].generation == id.generation
            && self.slots[id.index].item.is_some() {
            let ghost old_slots = self.slots@;
            proof {
                assert forall|i: int| 0 <= i < self.unused_slot_indices@.len() implies #[trigger] self.unused_slot_indices@[i] != id.index by {
                    assert(old_slots[self.unused_slot_indices@[i] as int].item is None);
                }
            }
            let slot = &mut self.slots[id.index];
            slot.item.as_mut()
        } else {
            proof {
                assert(self@ =~= old(self)@);
            }
            None
        }
    }

    /// The items with their ids, by increasing slot.
    pub fn enumerate(&self) -> (r: Vec<(SlotId, &T)>)
        ensures
            self.lists_ids(r@.map_values(|p: (SlotId, &T)| p.0)),
            r@.map_values(|p: (SlotId, &T)| p.0) == self.listing(),
            forall|i: int| 0 <= i < r@.len() ==> *(#[trigger] r@[i]).1 == self@[r@[i].0],
    {
        let mut r: Vec<(SlotId, &T)> = Vec::new();
        let mut k: usize = 0;
        while k < self.slots.len()
            invariant
                k <= self.slots@.len(),
                forall|i: int| 0 <= i < r@.len() ==> self@.contains_key(#[trigger] r@[i].0)
                    && r@[i].0.index < k && *r@[i].1 == self@[r@[i].0],
                forall|i: int, j: int| 0 <= i < j < r@.len() ==> (#[trigger] r@[i]).0.index < (#[trigger] r@[j]).0.index,
                forall|id: SlotId| #[trigger] self@.contains_key(id) && id.index < k ==> exists|i: int|
                    0 <= i < r@.len() && r@[i].0 == id,
            decreases self.slots@.len() - k,
        {
            let slot = &self.slots[k];
            match &slot.item {
                Some(item) => {
                    let id = SlotId { index: k, generation: slot.generation };
                    assert(self@.contains_key(id));
                    let ghost before = r@;
                    r.push((id, item));
                    proof {
                        assert(r@[r@.len() - 1].0 == id);
                        assert forall|other: SlotId| #[trigger] self@.contains_key(other) && other.index < k + 1 implies exists|i: int|
                            0 <= i < r@.len() && r@[i].0 == other by {
                            if other.index == k {
                                assert(other == id);
                                assert(r@[r@.len() - 1].0 == other);
                            } else {
                                let i = choose|i: int| 0 <= i < before.len() && before[i].0 == other;
                                assert(r@[i] == before[i]);
                            }
                        }
                    }
                },
                None => {},
            }
            k = k + 1;
        }
        proof {
            let ids = r@.map_values(|p: (SlotId, &T)| p.0);
            assert forall|id: SlotId| #[trigger] self@.contains_key(id) implies exists|i: int| 0 <= i < ids.len() && ids[i] == id by {
                let i = choose|i: int| 0 <= i < r@.len() && r@[i].0 == id;
                assert(ids[i] == id);
            }
            assert(self.lists_ids(ids));
            self.lemma_listing_unique(ids, self.listing());
        }
        r
    }

    /// The items, by increasing slot.
    pub fn iter(&self) -> (r: Vec<&T>)
        ensures
            r@.len() == self.listing().len(),
            forall|i: int| 0 <= i < r@.len() ==> *(#[trigger] r@[i]) == self@[self.listing()[i]],
    {
        let listed = self.enumerate();
        let mut r: Vec<&T> = Vec::new();
        let mut k: usize = 0;
        while k < listed.len()
            invariant
                k <= listed@.len(),
                r@.len() == k,
                forall|i: int| 0 <= i < k ==> r@[i] == listed@[i].1,
            decreases listed@.len() - k,
        {
            r.push(listed[k].1);
            k = k + 1;
        }
        proof {
            let ids = listed@.map_values(|p: (SlotId, &T)| p.0);
            assert(ids == self.listing());
            assert forall|i: int| 0 <= i < r@.len() implies *(#[trigger] r@[i]) == self@[self.listing()[i]] by {
                assert(ids[i] == listed@[i].0);
            }
        }
        r
    }

    /// The item that `id` names, where it names one.
    pub fn get(&self, id: SlotId) -> (r: Option<&T>)
        ensures
            r == (if self@.contains_key(id) { Some(&self@[id]) } else { None::<&T> }),
    {
        if id.index < self.slots.len() {
            let slot = &self.slots[id.index];
            if slot.generation == id.generation {
                match &slot.item {
                    Some(item) => Some(item),
                    None => None,
                }
            } else {
                None
            }
        } else {
            None
        }
    }
}

} // verus!
