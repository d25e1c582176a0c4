use vstd::prelude::*;
use super::strs::clear_string;

verus! {

/// Emptied lines kept for reuse, so that their allocations serve again.
pub struct LinePool {
    available: Vec<String>,
}

impl LinePool {
    /// How many lines the pool holds.
    pub closed spec fn size(&self) -> nat {
        self.available@.len()
    }

    /// Every line in the pool is empty.
    #[verifier::type_invariant]
    closed spec fn all_empty(&self) -> bool {
        forall|i: int| 0 <= i < self.available@.len() ==> (#[trigger] self.available@[i])@.len() == 0
    }

    pub fn new() -> (r: Self)
        ensures
            r.size() == 0,
    {
        Self { available: Vec::new() }
    }

    /// An empty line: one from the pool where it holds any, else a new one.
    pub fn pop(&mut self) -> (r: String)
        ensures
            r@ == Seq::<char>::empty(),
            final(self).size() == (if old(self).size() > 0 { old(self).size() - 1 } else { 0 }),
    {
        proof { use_type_invariant(&*self); }
        let mut available = Vec::new();
        std::mem::swap(&mut available, &mut self.available);
        let r = match available.pop() {
            Some(line) => line,
            None => String::new(),
        };
        std::mem::swap(&mut available, &mut self.available);
        r
    }

    /// Empties `line` and keeps it for reuse.
    pub fn push(&mut self, line: String)
        ensures
            final(self).size() == old(self).size() + 1,
    {
        proof { use_type_invariant(&*self); }
        let mut line = line;
        clear_string(&mut line);
        let mut available = Vec::new();
        std::mem::swap(&mut available, &mut self.available);
        available.push(line);
        std::mem::swap(&mut available, &mut self.available);
    }
}

} // verus!
