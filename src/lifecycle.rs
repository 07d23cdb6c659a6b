use vstd::prelude::*;

verus! {

/// Where a background search stands. A search is launched from `Idle`,
/// runs, finishes, and returns to `Idle` once its results are collected.
#[derive(Clone, Copy, Debug, PartialEq, Eq, Structural)]
pub enum SearchState {
    Idle,
    Running,
    Finished,
}

impl SearchState {
    /// A new search may start only when no earlier one is running or
    /// waiting to be collected.
    pub fn can_launch(&self) -> (r: bool)
        ensures
            r == (*self is Idle),
    {
        match self {
            SearchState::Idle => true,
            _ => false,
        }
    }

    /// A search was launched at some point and not yet collected.
    pub fn is_launched(&self) -> (r: bool)
        ensures
            r == !(*self is Idle),
    {
        !self.can_launch()
    }

    pub fn launch(&mut self)
        requires
            *old(self) is Idle,
        ensures
            *final(self) is Running,
    {
        *self = SearchState::Running;
    }

    /// Takes note of the worker's state as just polled.
    pub fn observe(&mut self, worker_done: bool)
        requires
            !(*old(self) is Idle),
        ensures
            *final(self) == if worker_done { SearchState::Finished } else { *old(self) },
    {
        if worker_done {
            *self = SearchState::Finished;
        }
    }

    /// The results were taken: the search is over.
    pub fn collect(&mut self)
        requires
            !(*old(self) is Idle),
        ensures
            *final(self) is Idle,
    {
        *self = SearchState::Idle;
    }
}

} // verus!
