//! Counting.

use vstd::prelude::*;

verus! {

/// A number of occurrences. It grows one by one, like the length of a vector, and has the
/// same limit.
pub struct Tally {
    marks: Vec<()>,
}

impl View for Tally {
    type V = nat;

    closed spec fn view(&self) -> nat {
        self.marks@.len()
    }
}

impl Tally {
    pub fn new() -> (tally: Self)
        ensures
            tally@ == 0,
    {
        Tally { marks: Vec::new() }
    }

    pub fn count(&self) -> (count: usize)
        ensures
            count == self@,
    {
        self.marks.len()
    }

    /// A count is limited like the length of a vector.
    pub proof fn lemma_limit(&self)
        ensures
            self@ <= usize::MAX,
    {
        assert(self.marks.len() == self.marks@.len());
    }

    /// Counts one more.
    pub fn add(&mut self)
        ensures
            final(self)@ == old(self)@ + 1,
    {
        self.marks.push(());
    }

    /// Counts one less, but not less than none.
    pub fn take(&mut self)
        ensures
            final(self)@ == if old(self)@ == 0 {
                0
            } else {
                (old(self)@ - 1) as nat
            },
    {
        self.marks.pop();
    }

    pub fn duplicate(&self) -> (tally: Self)
        ensures
            tally@ == self@,
    {
        let mut tally = Tally::new();
        while tally.count() < self.count()
            invariant
                tally@ <= self@,
            decreases self@ - tally@,
        {
            tally.add();
        }
        tally
    }
}

} // verus!
