//! The dispatcher: the release of the pending tasks in bounded bursts, one
//! burst for each tick of a timer.
use vstd::prelude::*;

verus! {

/// The quota: how many tasks are released in one burst at most.
pub const RPM: usize = 60;

/// The time between two ticks of the timer, in seconds.
pub const INTERVAL_SECONDS: u64 = 60;

/// The order in which the queue is released.
#[derive(Clone, Copy, PartialEq, Eq, Structural, Debug)]
pub enum ReleaseOrder {
    /// In the order of discovery: the task that has waited longest goes first.
    OldestFirst,
    /// Against the order of discovery: the task that was queued last goes
    /// first.
    NewestFirst,
}

/// When the first burst is released.
#[derive(Clone, Copy, PartialEq, Eq, Structural, Debug)]
pub enum FirstBurst {
    /// As soon as the dispatch begins.
    Immediate,
    /// After one full interval.
    AfterInterval,
}

/// What one tick releases.
#[derive(Clone, PartialEq, Eq, Debug)]
pub struct Burst {
    /// The places in the queue of the tasks to start now, in the order of
    /// their release.
    pub tasks: Vec<usize>,
    /// Whether tasks are left for a later tick.
    pub more: bool,
}

/// The place in a queue of `total` tasks of the task that is released as
/// number `n`, the first being number 0.
pub open spec fn place_of(order: ReleaseOrder, total: int, n: int) -> int {
    match order {
        ReleaseOrder::OldestFirst => n,
        ReleaseOrder::NewestFirst => total - 1 - n,
    }
}

/// How many tasks are released at once when `released` of `total` went
/// before: the quota, or what is left where that is less.
pub open spec fn burst_len(total: int, released: int) -> int {
    if total - released < RPM {
        total - released
    } else {
        RPM as int
    }
}

/// The places of the tasks that one burst releases when `released` of `total`
/// went before.
pub open spec fn burst_places(order: ReleaseOrder, total: int, released: int) -> Seq<int> {
    Seq::new(burst_len(total, released) as nat, |i: int| place_of(order, total, released + i))
}

/// The places that the burst with number `burst` releases from a queue of
/// `total` tasks, the first burst being number 0.
pub open spec fn places_of_burst(order: ReleaseOrder, total: int, burst: int) -> Seq<int> {
    if burst * RPM <= total {
        burst_places(order, total, burst * RPM)
    } else {
        Seq::empty()
    }
}

/// The places as integers.
pub open spec fn place_views(places: Seq<usize>) -> Seq<int> {
    Seq::new(places.len(), |i: int| places[i] as int)
}

/// The state of the dispatch over a queue of a given length.
pub struct Dispatcher {
    order: ReleaseOrder,
    total: usize,
    released: usize,
}

impl Dispatcher {
    /// The order of release.
    pub closed spec fn order(&self) -> ReleaseOrder {
        self.order
    }

    /// The length of the queue.
    pub closed spec fn total(&self) -> int {
        self.total as int
    }

    /// How many tasks were released so far.
    pub closed spec fn released(&self) -> int {
        self.released as int
    }

    /// The invariant: no more tasks were released than the queue holds.
    pub closed spec fn wf(&self) -> bool {
        self.released <= self.total
    }

    /// The dispatcher for a queue of `total` tasks, of which none was
    /// released yet.
    pub fn new(total: usize, order: ReleaseOrder) -> (r: Self)
        ensures
            r.wf(),
            r.order() == order,
            r.total() == total,
            r.released() == 0,
    {
        Dispatcher { order, total, released: 0 }
    }

    /// How many tasks still wait for their release.
    pub fn remaining(&self) -> (n: usize)
        requires
            self.wf(),
        ensures
            n == self.total() - self.released(),
    {
        self.total - self.released
    }

    /// One tick of the timer: releases the next tasks, as many as the quota
    /// allows or as are left, and says whether another tick is needed.
    pub fn next_burst(&mut self) -> (burst: Burst)
        requires
            old(self).wf(),
        ensures
            final(self).wf(),
            final(self).order() == old(self).order(),
            final(self).total() == old(self).total(),
            final(self).released() == old(self).released() + burst.tasks@.len(),
            burst.tasks@.len() <= RPM,
            place_views(burst.tasks@) == burst_places(
                old(self).order(),
                old(self).total(),
                old(self).released(),
            ),
            burst.more == (final(self).released() < final(self).total()),
    {
        let mut tasks: Vec<usize> = Vec::new();
        let start: usize = self.released;
        let left: usize = self.total - self.released;
        let count: usize = if left < RPM { left } else { RPM };
        let mut i: usize = 0;
        while i < count
            invariant
                i <= count,
                start + count <= self.total,
                tasks@.len() == i,
                forall|j: int|
                    0 <= j < i ==> (#[trigger] tasks@[j]) as int == place_of(
                        self.order,
                        self.total as int,
                        start + j,
                    ),
            decreases count - i,
        {
            let place: usize = match self.order {
                ReleaseOrder::OldestFirst => start + i,
                ReleaseOrder::NewestFirst => self.total - 1 - (start + i),
            };
            tasks.push(place);
            i = i + 1;
        }
        self.released = start + count;
        assert(place_views(tasks@) =~= burst_places(self.order, self.total as int, start as int));
        Burst { tasks, more: self.released < self.total }
    }
}

/// The time to wait before the burst with number `burst` is released, in
/// seconds, the first burst being number 0.
pub fn delay_before(first: FirstBurst, burst: usize) -> (seconds: u64)
    ensures
        seconds == if burst == 0 && first == FirstBurst::Immediate {
            0
        } else {
            INTERVAL_SECONDS
        },
{
    if burst == 0 {
        match first {
            FirstBurst::Immediate => 0,
            FirstBurst::AfterInterval => INTERVAL_SECONDS,
        }
    } else {
        INTERVAL_SECONDS
    }
}

/// No burst is larger than the quota.
pub proof fn law_burst_within_quota(order: ReleaseOrder, total: int, released: int)
    requires
        0 <= released <= total,
    ensures
        burst_places(order, total, released).len() <= RPM,
{
}

/// Every task of the queue is released once: its place stands in exactly one
/// burst, at exactly one position of that burst.
pub proof fn law_each_task_released_once(order: ReleaseOrder, total: int, place: int)
    requires
        0 <= place < total,
    ensures
        exists|burst: int, i: int|
            released_at(order, total, place, burst, i) && forall|other: int, j: int|
                released_at(order, total, place, other, j) ==> other == burst && j == i,
{
    let n = match order {
        ReleaseOrder::OldestFirst => place,
        ReleaseOrder::NewestFirst => total - 1 - place,
    };
    let burst = n / (RPM as int);
    let i = n % (RPM as int);
    assert(released_at(order, total, place, burst, i));
    assert forall|other: int, j: int| released_at(order, total, place, other, j) implies other
        == burst && j == i by {
        assert(other * RPM + j == n);
    }
}

/// The burst with number `burst` releases the task at `place` at its
/// position `i`.
pub open spec fn released_at(order: ReleaseOrder, total: int, place: int, burst: int, i: int) -> bool {
    &&& 0 <= burst
    &&& 0 <= i < places_of_burst(order, total, burst).len()
    &&& places_of_burst(order, total, burst)[i] == place
}

} // verus!
