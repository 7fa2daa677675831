//! Samples of distinct numbers: what to do with each number that is drawn.

use vstd::prelude::*;

verus! {

/// A sample that is being drawn: the numbers taken so far, and how many
/// are still missing.
pub struct DistinctSample {
    values: Vec<usize>,
    missing: usize,
}

impl View for DistinctSample {
    type V = Seq<usize>;

    /// The numbers taken so far, in the order in which they were offered.
    closed spec fn view(&self) -> Seq<usize> {
        self.values@
    }
}

impl DistinctSample {
    /// How many numbers the sample still needs.
    pub closed spec fn missing(&self) -> nat {
        self.missing as nat
    }

    /// No number was taken twice.
    pub closed spec fn wf(&self) -> bool {
        self.values@.no_duplicates()
    }

    /// A sample of `data_count` numbers, none of them drawn yet.
    pub fn new(data_count: usize) -> (sample: Self)
        ensures
            sample.wf(),
            sample@ == Seq::<usize>::empty(),
            sample.missing() == data_count,
    {
        Self { values: Vec::new(), missing: data_count }
    }

    /// Whether the sample still needs numbers.
    pub fn wants_more(&self) -> (more: bool)
        ensures
            more == (self.missing() > 0),
    {
        self.missing > 0
    }

    /// Offers the number `candidate` to the sample. It is taken if the
    /// sample still needs numbers and does not have it yet.
    pub fn offer(&mut self, candidate: usize) -> (taken: bool)
        requires
            old(self).wf(),
        ensures
            final(self).wf(),
            taken == (old(self).missing() > 0 && !old(self)@.contains(candidate)),
            taken ==> final(self)@ == old(self)@.push(candidate) && final(self).missing() + 1
                == old(self).missing(),
            !taken ==> final(self)@ == old(self)@ && final(self).missing() == old(self).missing(),
    {
        if self.missing == 0 {
            return false;
        }
        let mut i: usize = 0;
        while i < self.values.len()
            invariant
                *self == *old(self),
                self.wf(),
                self.missing > 0,
                i <= self.values.len(),
                forall|j: int| 0 <= j < i ==> self.values@[j] != candidate,
            decreases self.values.len() - i,
        {
            if self.values[i] == candidate {
                return false;
            }
            i += 1;
        }
        self.values.push(candidate);
        self.missing -= 1;
        true
    }

    /// The numbers of the sample, in the order in which they were taken.
    pub fn into_values(self) -> (values: Vec<usize>)
        requires
            self.wf(),
        ensures
            values@ == self@,
            values@.no_duplicates(),
    {
        self.values
    }
}

} // verus!
