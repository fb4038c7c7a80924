//! A filter which keeps a record of its calls.
use vstd::prelude::*;

use crate::position::GlobalPosition;

verus! {

/// A filter, with the positions which it was asked about so far.
pub struct RecordedFilter<F> {
    filter: F,
    calls: Ghost<Seq<GlobalPosition>>,
}

impl<F> RecordedFilter<F> {
    /// The filter.
    pub closed spec fn filter(&self) -> F {
        self.filter
    }

    /// The positions which the filter was asked about, in the order of the calls.
    pub closed spec fn calls(&self) -> Seq<GlobalPosition> {
        self.calls@
    }

    /// Starts the record of a filter.
    pub fn new(filter: F) -> (recorded: Self)
        ensures
            recorded.filter() == filter,
            recorded.calls() == Seq::<GlobalPosition>::empty(),
    {
        RecordedFilter { filter, calls: Ghost(Seq::empty()) }
    }

    /// Asks the filter about `position`, and puts this on the record.
    ///
    /// The filter is called once. The contract does not say so: a closure has no
    /// history which a clause could name.
    pub fn ask<E>(&mut self, position: GlobalPosition) -> (answer: Result<bool, E>) where
        F: FnMut(GlobalPosition) -> Result<bool, E>,

        requires
            call_requires(old(self).filter(), (position,)),
        ensures
            call_ensures(old(self).filter(), (position,), answer),
            final(self).filter() == old(self).filter(),
            final(self).calls() == old(self).calls().push(position),
    {
        proof {
            self.calls@ = self.calls@.push(position);
        }
        (self.filter)(position)
    }
}

} // verus!
