use vstd::prelude::*;
use std::collections::HashMap;

verus! {

broadcast use vstd::std_specs::hash::group_hash_axioms;

/// The wakers of the tasks waiting for events, by file descriptor. At most
/// one task waits on a descriptor at a time.
pub struct WakerTable<W> {
    wakers: HashMap<i32, W>,
}

impl<W> WakerTable<W> {
    /// The waiting wakers by file descriptor.
    pub closed spec fn entries(&self) -> Map<i32, W> {
        self.wakers@
    }

    /// No task waits.
    pub fn new() -> (r: Self)
        ensures
            r.entries() == Map::<i32, W>::empty(),
    {
        WakerTable { wakers: HashMap::new() }
    }

    /// Whether a task waits on `fd`.
    pub fn contains(&self, fd: i32) -> (r: bool)
        ensures
            r == self.entries().contains_key(fd),
    {
        self.wakers.contains_key(&fd)
    }

    /// Records that the task of `waker` waits on `fd`, where none waits yet.
    pub fn add_event(&mut self, fd: i32, waker: W)
        requires
            !old(self).entries().contains_key(fd),
        ensures
            final(self).entries() == old(self).entries().insert(fd, waker),
    {
        self.wakers.insert(fd, waker);
    }

    /// Forgets whatever task waits on `fd`.
    pub fn rm_event(&mut self, fd: i32)
        ensures
            final(self).entries() == old(self).entries().remove(fd),
    {
        self.wakers.remove(&fd);
    }

    /// An event arrived on `fd`: the waiting task's waker is taken out, to
    /// be woken. A task must be waiting on `fd`.
    pub fn take(&mut self, fd: i32) -> (r: W)
        requires
            old(self).entries().contains_key(fd),
        ensures
            r == old(self).entries()[fd],
            final(self).entries() == old(self).entries().remove(fd),
    {
        self.wakers.remove(&fd).unwrap()
    }
}

} // verus!
