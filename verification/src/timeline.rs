//! The scheduler. A `Timeline` holds envelopes scheduled for a future
//! logical instant and tracks the current logical time, which advances only
//! when the earliest event is popped. Logical time is an abstract,
//! monotonically non-decreasing tick count; the kernel relies on nothing but
//! its ordering.

use vstd::prelude::*;

use crate::message::{BoundedTopic, RcEnvelope};

verus! {

/// Logical simulation time, in abstract ticks. Distinct from wall-clock
/// time: only its ordering matters to the kernel.
pub type Time = u64;

/// A scheduled delivery: the envelope to dispatch, and the instant at which
/// to dispatch it.
pub struct Event<Message, Topic> where Message: Clone, Topic: BoundedTopic {
    /// The instant at which this event fires.
    pub time: Time,
    /// The envelope to deliver when it does.
    pub envelope: RcEnvelope<Message, Topic>,
}

/// Why the timeline refused an event.
#[derive(Copy, Clone, Debug, PartialEq, Eq, Structural)]
pub enum TimelineError {
    /// The event's time lies before the current logical time. Scheduling
    /// into the past is a programmer error and is never silently accepted.
    EventInPast,
}

/// The index of the event a pop removes: the earliest-pushed among the
/// events of minimal time. Ties on time are broken deterministically, in
/// favour of the event that was pushed first.
pub open spec fn earliest_index<Message: Clone, Topic: BoundedTopic>(
    s: Seq<Event<Message, Topic>>,
) -> int
    recommends
        s.len() > 0,
    decreases s.len(),
{
    if s.len() <= 1 {
        0
    } else {
        let j = earliest_index(s.drop_last());
        if s[s.len() - 1].time < s[j].time {
            s.len() - 1
        } else {
            j
        }
    }
}

/// The times a queue of events would yield, popped one after another until
/// it is empty.
pub open spec fn pop_times<Message: Clone, Topic: BoundedTopic>(
    s: Seq<Event<Message, Topic>>,
) -> Seq<Time>
    decreases s.len(),
    via pop_times_decreases::<Message, Topic>
{
    if s.len() == 0 {
        Seq::empty()
    } else {
        seq![s[earliest_index(s)].time].add(pop_times(s.remove(earliest_index(s))))
    }
}

#[via_fn]
proof fn pop_times_decreases<Message: Clone, Topic: BoundedTopic>(s: Seq<Event<Message, Topic>>) {
    if s.len() > 0 {
        lemma_earliest_index(s);
    }
}

/// `earliest_index` lands in the queue, on an event of minimal time, and on
/// the first such event.
pub proof fn lemma_earliest_index<Message: Clone, Topic: BoundedTopic>(
    s: Seq<Event<Message, Topic>>,
)
    requires
        s.len() > 0,
    ensures
        0 <= earliest_index(s) < s.len(),
        forall|k: int| 0 <= k < s.len() ==> (#[trigger] s[k].time) >= s[earliest_index(s)].time,
        forall|k: int|
            0 <= k < earliest_index(s) ==> (#[trigger] s[k].time) > s[earliest_index(s)].time,
    decreases s.len(),
{
    if s.len() > 1 {
        let s2 = s.drop_last();
        lemma_earliest_index(s2);
        let j = earliest_index(s2);
        let last = s.len() - 1;
        let e = earliest_index(s);
        assert forall|k: int| 0 <= k < s.len() implies (#[trigger] s[k].time) >= s[e].time by {
            if k < last {
                assert(s2[k] == s[k]);
                assert(s2[k].time >= s2[j].time);
            }
        }
        assert forall|k: int| 0 <= k < e implies (#[trigger] s[k].time) > s[e].time by {
            assert(s2[k] == s[k]);
            if e == last {
                assert(s2[k].time >= s2[j].time);
            } else {
                assert(s2[k].time > s2[j].time);
            }
        }
    }
}

/// The time-ordered priority queue of scheduled events, together with the
/// current logical time.
pub struct Timeline<Message, Topic> where Message: Clone, Topic: BoundedTopic {
    now: Time,
    event_queue: Vec<Event<Message, Topic>>,
}

impl<Message, Topic> Timeline<Message, Topic> where Message: Clone, Topic: BoundedTopic {
    /// The current logical time.
    pub closed spec fn now_spec(&self) -> Time {
        self.now
    }

    /// The scheduled events, in the order they were pushed.
    pub closed spec fn events(&self) -> Seq<Event<Message, Topic>> {
        self.event_queue@
    }

    /// Every scheduled event lies at or after the current logical time:
    /// pushes refuse events in the past, and a pop advances `now` to the
    /// minimum remaining time.
    pub open spec fn wf(&self) -> bool {
        forall|i: int| 0 <= i < self.events().len() ==> self.events()[i].time >= self.now_spec()
    }

    /// The current logical time. Read-only: time advances only through
    /// [`Timeline::pop`].
    pub fn now(&self) -> (t: Time)
        ensures
            t == self.now_spec(),
    {
        self.now
    }

    /// Inserts an event into the queue, keyed by its time. An event in the
    /// past — `event.time < self.now()` — always fails and is never silently
    /// accepted or reordered; the timeline is left untouched.
    pub fn push(&mut self, event: Event<Message, Topic>) -> (r: Result<(), TimelineError>)
        ensures
            event.time >= old(self).now_spec() ==> {
                &&& r is Ok
                &&& final(self).events() == old(self).events().push(event)
                &&& final(self).now_spec() == old(self).now_spec()
            },
            event.time < old(self).now_spec() ==> {
                &&& r == Err::<(), TimelineError>(TimelineError::EventInPast)
                &&& *final(self) == *old(self)
            },
            old(self).wf() ==> final(self).wf(),
    {
        if event.time < self.now {
            Err(TimelineError::EventInPast)
        } else {
            self.event_queue.push(event);
            Ok(())
        }
    }

    /// Removes and returns the event of globally minimal time — the
    /// earliest-pushed one, where several share it — advancing the current
    /// logical time to that event's time. Returns `None`, and leaves the
    /// timeline untouched, when the queue is empty.
    pub fn pop(&mut self) -> (r: Option<Event<Message, Topic>>)
        ensures
            old(self).events().len() == 0 ==> {
                &&& r is None
                &&& *final(self) == *old(self)
            },
            old(self).events().len() > 0 ==> {
                let i = earliest_index(old(self).events());
                &&& r == Some(old(self).events()[i])
                &&& final(self).events() == old(self).events().remove(i)
                &&& final(self).now_spec() == old(self).events()[i].time
                &&& forall|k: int|
                    0 <= k < old(self).events().len() ==> old(self).events()[k].time
                        >= final(self).now_spec()
            },
            old(self).wf() ==> final(self).wf(),
            old(self).wf() ==> final(self).now_spec() >= old(self).now_spec(),
    {
        proof {
            if self.events().len() > 0 {
                lemma_earliest_index(self.events());
            }
        }
        if self.event_queue.len() == 0 {
            return None;
        }
        let ghost s = self.events();
        let mut best: usize = 0;
        let mut i: usize = 1;
        while i < self.event_queue.len()
            invariant
                self.events() == s,
                0 <= best < i <= s.len(),
                forall|k: int| 0 <= k < i ==> s[k].time >= s[best as int].time,
                forall|k: int| 0 <= k < best ==> s[k].time > s[best as int].time,
            decreases s.len() - i,
        {
            if self.event_queue[i].time < self.event_queue[best].time {
                best = i;
            }
            i = i + 1;
        }
        proof {
            lemma_earliest_unique(s, best as int);
        }
        let event = self.event_queue.remove(best);
        self.now = event.time;
        Some(event)
    }
}

/// An index that is minimal, and first among the minimal ones, is the index
/// `earliest_index` denotes.
proof fn lemma_earliest_unique<Message: Clone, Topic: BoundedTopic>(
    s: Seq<Event<Message, Topic>>,
    b: int,
)
    requires
        0 <= b < s.len(),
        forall|k: int| 0 <= k < s.len() ==> s[k].time >= s[b].time,
        forall|k: int| 0 <= k < b ==> s[k].time > s[b].time,
    ensures
        earliest_index(s) == b,
    decreases s.len(),
{
    lemma_earliest_index(s);
    if s.len() > 1 {
        let j = earliest_index(s.drop_last());
        lemma_earliest_index(s.drop_last());
        if b < s.len() - 1 {
            lemma_earliest_unique(s.drop_last(), b);
        }
    }
}

impl<Message, Topic> Default for Timeline<Message, Topic> where
    Message: Clone,
    Topic: BoundedTopic,
 {
    /// An empty timeline at logical time zero.
    fn default() -> (t: Self)
        ensures
            t.now_spec() == 0,
            t.events() == Seq::<Event<Message, Topic>>::empty(),
            t.wf(),
    {
        Timeline { now: 0, event_queue: Vec::new() }
    }
}

/// The sequence of times that successive pops return is non-decreasing,
/// whatever events were pushed onto the timeline.
pub proof fn lemma_pop_times_nondecreasing<Message: Clone, Topic: BoundedTopic>(
    s: Seq<Event<Message, Topic>>,
)
    ensures
        forall|i: int, j: int|
            0 <= i <= j < pop_times(s).len() ==> pop_times(s)[i] <= pop_times(s)[j],
    decreases s.len(),
{
    if s.len() > 0 {
        lemma_earliest_index(s);
        let e = earliest_index(s);
        let rest = s.remove(e);
        lemma_pop_times_nondecreasing(rest);
        assert forall|k: int| 0 <= k < rest.len() implies (#[trigger] rest[k].time) >= s[e].time by {
            if k < e {
                assert(rest[k] == s[k]);
            } else {
                assert(rest[k] == s[k + 1]);
            }
        }
        lemma_pop_times_bounded_below(rest, s[e].time);
        let pt = pop_times(s);
        let ptr = pop_times(rest);
        assert(pt == seq![s[e].time].add(ptr));
        assert forall|i: int, j: int| 0 <= i <= j < pt.len() implies pt[i] <= pt[j] by {
            if j > 0 {
                assert(pt[j] == ptr[j - 1]);
                if i == 0 {
                    assert(ptr[j - 1] >= s[e].time);
                } else {
                    assert(pt[i] == ptr[i - 1]);
                    assert(ptr[i - 1] <= ptr[j - 1]);
                }
            }
        }
    }
}

/// When every event of a queue lies at or after `t`, so does every time the
/// queue will ever yield.
proof fn lemma_pop_times_bounded_below<Message: Clone, Topic: BoundedTopic>(
    s: Seq<Event<Message, Topic>>,
    t: Time,
)
    requires
        forall|k: int| 0 <= k < s.len() ==> s[k].time >= t,
    ensures
        forall|i: int| 0 <= i < pop_times(s).len() ==> pop_times(s)[i] >= t,
    decreases s.len(),
{
    if s.len() > 0 {
        lemma_earliest_index(s);
        let e = earliest_index(s);
        let rest = s.remove(e);
        assert forall|k: int| 0 <= k < rest.len() implies (#[trigger] rest[k].time) >= t by {
            if k < e {
                assert(rest[k] == s[k]);
            } else {
                assert(rest[k] == s[k + 1]);
            }
        }
        lemma_pop_times_bounded_below(rest, t);
        assert forall|i: int| 0 <= i < pop_times(s).len() implies pop_times(s)[i] >= t by {
            if i == 0 {
                assert(pop_times(s)[0] == s[e].time);
            } else {
                assert(pop_times(s)[i] == pop_times(rest)[i - 1]);
            }
        }
    }
}

} // verus!
