use vstd::prelude::*;

verus! {

/// Where an enumerator stands in its walk.
#[derive(Clone, Copy, Debug, PartialEq, Eq, Structural)]
pub enum Phase {
    /// Nothing was produced yet; the first `advance` produces the first tuple.
    NotStarted,
    /// The state holds the tuple produced last.
    Active,
    /// Every tuple was produced; the enumerator stays here.
    Finished,
}

} // verus!
