//! What was done so far, for the proofs. It only grows, and it is empty in a running
//! program.
use vstd::prelude::*;

verus! {

/// What was done so far, in order.
pub struct History<T> {
    events: Ghost<Seq<T>>,
}

impl<T> View for History<T> {
    type V = Seq<T>;

    closed spec fn view(&self) -> Seq<T> {
        self.events@
    }
}

impl<T> History<T> {
    /// Nothing was done.
    pub(crate) fn new() -> (r: Self)
        ensures
            r@.len() == 0,
    {
        History { events: Ghost(Seq::empty()) }
    }

    /// More was done.
    pub(crate) fn note(&mut self, more: Ghost<Seq<T>>)
        ensures
            final(self)@ == old(self)@ + more@,
    {
        self.events = Ghost(self.events@ + more@);
    }
}

} // verus!
