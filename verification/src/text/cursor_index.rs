use vstd::prelude::*;

verus! {

#[derive(Clone, Copy, Debug)]
pub enum CursorIndex {
    /// The cursor with this index.
    Index(usize),
    Main,
}

impl CursorIndex {
    pub fn unwrap_or(self, main_index: usize) -> (r: usize)
        ensures
            r == match self {
                CursorIndex::Index(index) => index,
                CursorIndex::Main => main_index,
            },
    {
        match self {
            Self::Index(index) => index,
            Self::Main => main_index,
        }
    }
}

/// The cursor indices from `i` up to `len`, taken from either end.
#[derive(Clone, Copy)]
pub struct CursorIndices {
    i: usize,
    len: usize,
}

impl CursorIndices {
    /// The next index from the front.
    pub closed spec fn front(&self) -> usize {
        self.i
    }

    /// One past the next index from the back.
    pub closed spec fn back(&self) -> usize {
        self.len
    }

    pub fn new(i: usize, len: usize) -> (r: Self)
        ensures
            r.front() == i,
            r.back() == len,
    {
        Self { i, len }
    }

    pub fn next(&mut self) -> (r: Option<CursorIndex>)
        ensures
            old(self).front() < old(self).back() ==> r == Some(CursorIndex::Index(old(self).front()))
                && final(self).front() == old(self).front() + 1 && final(self).back() == old(self).back(),
            old(self).front() >= old(self).back() ==> r is None && *final(self) == *old(self),
    {
        if self.i < self.len {
            let index = CursorIndex::Index(self.i);
            self.i = self.i + 1;
            Some(index)
        } else {
            None
        }
    }

    pub fn next_back(&mut self) -> (r: Option<CursorIndex>)
        ensures
            old(self).front() < old(self).back() ==> r == Some(CursorIndex::Index((old(self).back() - 1) as usize))
                && final(self).back() == old(self).back() - 1 && final(self).front() == old(self).front(),
            old(self).front() >= old(self).back() ==> r is None && *final(self) == *old(self),
    {
        if self.len > self.i {
            let index = CursorIndex::Index(self.len - 1);
            self.len = self.len - 1;
            Some(index)
        } else {
            None
        }
    }
}

} // verus!
