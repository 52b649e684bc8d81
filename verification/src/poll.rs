//! The bookkeeping of the epoll wrapper: the contexts registered per file
//! descriptor, and the conversions between descriptors, event data and
//! timeouts. The epoll system calls themselves are made around it.
use std::collections::HashMap;

use vstd::prelude::*;

verus! {

broadcast use vstd::std_specs::hash::group_hash_axioms;

/// The context objects registered with an epoll instance, by file descriptor.
pub struct Registry<C> {
    es: HashMap<i32, C>,
}

impl<C> View for Registry<C> {
    type V = Map<i32, C>;

    closed spec fn view(&self) -> Map<i32, C> {
        self.es@
    }
}

/// What `epoll_ctl` with `EPOLL_CTL_DEL` gave.
#[derive(Debug, Clone, Copy, PartialEq, Eq, Structural)]
pub enum CtlOutcome {
    /// It succeeded.
    Done,
    /// The descriptor was not being watched (`ENOENT`).
    NotFound,
    /// Any other error.
    Failed,
}

impl<C> Registry<C> {
    /// No contexts.
    pub fn new() -> (r: Registry<C>)
        ensures
            r@ == Map::<i32, C>::empty(),
    {
        Registry { es: HashMap::new() }
    }

    /// Registers `c` under `fd`, replacing any context registered there.
    pub fn insert(&mut self, fd: i32, c: C)
        ensures
            final(self)@ == old(self)@.insert(fd, c),
    {
        self.es.insert(fd, c);
    }

    /// Unregisters `fd`, giving back its context if it had one.
    pub fn remove(&mut self, fd: i32) -> (r: Option<C>)
        ensures
            final(self)@ == old(self)@.remove(fd),
            r == if old(self)@.contains_key(fd) {
                Some(old(self)@[fd])
            } else {
                None
            },
    {
        self.es.remove(&fd)
    }

    /// The context registered under `fd`.
    pub fn get(&self, fd: i32) -> (r: Option<&C>)
        ensures
            r == if self@.contains_key(fd) {
                Some(&self@[fd])
            } else {
                None
            },
    {
        self.es.get(&fd)
    }

    /// The number of registered descriptors.
    pub fn len(&self) -> (r: usize)
        ensures
            r == self@.len(),
    {
        self.es.len()
    }

    /// Unregisters `fd` after `epoll_ctl` tried to stop watching it: the
    /// context leaves the registry whatever the outcome; a missing descriptor
    /// counts as success, any other error is reported.
    pub fn remove_after_ctl(&mut self, fd: i32, outcome: CtlOutcome) -> (r: Result<Option<C>, ()>)
        ensures
            final(self)@ == old(self)@.remove(fd),
            match outcome {
                CtlOutcome::Failed => r is Err,
                _ => r == Ok::<Option<C>, ()>(
                    if old(self)@.contains_key(fd) {
                        Some(old(self)@[fd])
                    } else {
                        None
                    },
                ),
            },
    {
        let removed = self.remove(fd);
        match outcome {
            CtlOutcome::Failed => Err(()),
            _ => Ok(removed),
        }
    }

    /// The ready events whose descriptor is registered, in order, each with
    /// its event bits and descriptor.
    pub fn ready(&self, events: &Vec<(u32, u64)>) -> (r: Vec<(u32, i32)>)
        requires
            forall|i: int| 0 <= i < events@.len() ==> (#[trigger] events@[i]).1 <= i32::MAX,
        ensures
            r@ == ready_events(self@, events@),
    {
        let mut out: Vec<(u32, i32)> = Vec::new();
        let mut i: usize = 0;
        while i < events.len()
            invariant
                i <= events@.len(),
                forall|j: int| 0 <= j < events@.len() ==> (#[trigger] events@[j]).1 <= i32::MAX,
                out@ == ready_events(self@, events@.take(i as int)),
            decreases events.len() - i,
        {
            let (bits, data) = events[i];
            let fd = event_fd(data);
            proof {
                assert(events@.take(i + 1).drop_last() =~= events@.take(i as int));
            }
            if self.get(fd).is_some() {
                out.push((bits, fd));
            }
            i += 1;
        }
        proof {
            assert(events@.take(events@.len() as int) =~= events@);
        }
        out
    }
}

/// The registered events among `events`, with their data read as descriptors.
pub open spec fn ready_events(m: Map<i32, impl Sized>, events: Seq<(u32, u64)>) -> Seq<(u32, i32)>
    decreases events.len(),
{
    if events.len() == 0 {
        seq![]
    } else {
        let rest = ready_events(m, events.drop_last());
        let (bits, data) = events.last();
        if m.contains_key(data as i32) {
            rest.push((bits, data as i32))
        } else {
            rest
        }
    }
}

/// The event data that identifies a descriptor; a negative descriptor has none.
pub fn event_data(fd: i32) -> (r: u64)
    requires
        fd >= 0,
    ensures
        r == fd,
{
    fd as u64
}

/// The descriptor that event data identifies; data above `i32::MAX` identifies none.
pub fn event_fd(data: u64) -> (r: i32)
    requires
        data <= i32::MAX,
    ensures
        r == data,
{
    data as i32
}

/// The `epoll_wait` timeout for an optional timeout in milliseconds: `-1`
/// (wait forever) for none, else the milliseconds, at most `i32::MAX`.
pub fn wait_timeout(timeout_ms: Option<u128>) -> (r: i32)
    ensures
        r == match timeout_ms {
            None => -1,
            Some(ms) => if ms <= i32::MAX {
                ms as int
            } else {
                i32::MAX as int
            },
        },
{
    match timeout_ms {
        None => -1,
        Some(ms) => if ms <= 0x7fff_ffff {
            ms as i32
        } else {
            0x7fff_ffff
        },
    }
}

/// The number of event slots for a wait: one per registered descriptor, at least one.
pub fn event_slots(registered: usize) -> (r: usize)
    ensures
        r == if registered > 1 {
            registered
        } else {
            1
        },
{
    if registered > 1 {
        registered
    } else {
        1
    }
}

/// Registering a context under a descriptor and then unregistering that
/// descriptor gives the context back, and leaves the other descriptors as
/// they were.
/// (`Registry::insert` makes `r@.insert(fd, c)`; `Registry::remove` then
/// answers from and removes that entry.)
pub proof fn law_remove_gives_back_inserted<C>(r: Registry<C>, fd: i32, c: C)
    ensures
        r@.insert(fd, c).contains_key(fd),
        r@.insert(fd, c)[fd] == c,
        r@.insert(fd, c).remove(fd) == r@.remove(fd),
{
    assert(r@.insert(fd, c).remove(fd) =~= r@.remove(fd));
}

} // verus!
