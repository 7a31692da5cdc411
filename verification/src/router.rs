//! The dispatcher. A `Router` owns the actors and the timeline, maintains
//! the channel-to-subscriber mapping and the immediate-delivery queue, and
//! drives the event loop. It is the single owner and single mutator of all
//! of them: actors are mutated only inside their own `register` or
//! `receive_message` turn.

use vstd::prelude::*;

use std::collections::VecDeque;
use std::rc::Rc;

use crate::actor::{Actor, ActorHandle};
use crate::message::{
    dup_rc, payload_carried, topic_eq_exact, BoundedTopic, Channel, Envelope, RcEnvelope,
};
use crate::timeline::{earliest_index, Event, Time, Timeline};

verus! {

/// The handle stamped as the sender of replies the router synthesizes
/// itself, such as answers to time queries.
pub const TIMELINE_HANDLE: ActorHandle = 0;

/// Why the router refused an envelope. Scheduling mistakes are programmer
/// errors: they are reported at once and never silently accepted.
#[derive(Copy, Clone, Debug, PartialEq, Eq, Structural)]
pub enum RouterError {
    /// A `ScheduleEvent` envelope asked for an instant earlier than the
    /// current logical time.
    ScheduledInPast,
    /// A `ScheduleEvent` envelope carried no time at all.
    MissingScheduleTime,
}

/// How a call to [`Router::run`] came to an end.
#[derive(Copy, Clone, Debug, PartialEq, Eq, Structural)]
pub enum RunOutcome {
    /// A `Stop` envelope was observed; remaining queue and timeline content
    /// is left unprocessed.
    Stopped,
    /// Both the immediate queue and the timeline ran empty.
    Exhausted,
    /// The step budget ran out before either of the above.
    OutOfSteps,
}

/// The subscriber list recorded for channel `c` in an association list of
/// channel/subscriber pairs: the list of the first matching entry, or the
/// empty list when no entry matches — a channel nobody subscribed to is a
/// valid no-op, not an error.
pub open spec fn lookup_subs<Topic: BoundedTopic>(
    s: Seq<(Channel<Topic>, Seq<ActorHandle>)>,
    c: Channel<Topic>,
) -> Seq<ActorHandle>
    decreases s.len(),
{
    if s.len() == 0 {
        Seq::empty()
    } else if s[0].0 == c {
        s[0].1
    } else {
        lookup_subs(s.drop_first(), c)
    }
}

/// The reply the router synthesizes for a time query: an envelope on the
/// `Time` channel carrying the current logical time and no payload.
pub open spec fn time_reply<Message: Clone, Topic: BoundedTopic>(now: Time) -> Envelope<
    Message,
    Topic,
> {
    Envelope { from: TIMELINE_HANDLE, channel: Channel::Time, message: None, time: Some(now) }
}

/// Holds when `post` is `pre` with exactly the synthesized time reply for
/// instant `now` appended at the back.
pub open spec fn replied<Message: Clone, Topic: BoundedTopic>(
    pre: Seq<RcEnvelope<Message, Topic>>,
    post: Seq<RcEnvelope<Message, Topic>>,
    now: Time,
) -> bool {
    &&& post.len() == pre.len() + 1
    &&& pre.is_prefix_of(post)
    &&& post.last() == time_reply::<Message, Topic>(now)
}

/// Whether the router must refuse an envelope outright, and with which
/// error: a `ScheduleEvent` without a time, or one aimed before `now`.
pub open spec fn schedule_refusal<Topic: BoundedTopic>(
    channel: Channel<Topic>,
    time: Option<Time>,
    now: Time,
) -> Option<RouterError> {
    if channel is ScheduleEvent {
        match time {
            Option::None => Some(RouterError::MissingScheduleTime),
            Option::Some(t) => if t < now {
                Some(RouterError::ScheduledInPast)
            } else {
                None
            },
        }
    } else {
        None
    }
}

/// One owned participant. Wrapping the boxed actor in a named slot keeps
/// the actor list a vector of plain struct values.
#[verifier::reject_recursive_types(Message)]
#[verifier::reject_recursive_types(Topic)]
pub struct ActorSlot<Message, Topic> where Message: Clone, Topic: BoundedTopic {
    inner: Box<dyn Actor<Message, Topic>>,
}

impl<Message, Topic> ActorSlot<Message, Topic> where Message: Clone, Topic: BoundedTopic {
    fn new(inner: Box<dyn Actor<Message, Topic>>) -> Self {
        ActorSlot { inner }
    }
}

/// The dispatcher: owns the actors, the timeline, the subscription table
/// and the immediate queue, and runs the event loop.
#[verifier::reject_recursive_types(Message)]
#[verifier::reject_recursive_types(Topic)]
pub struct Router<Message, Topic> where Message: Clone, Topic: BoundedTopic {
    /// The registered actors, indexed by their handle.
    actors: Vec<ActorSlot<Message, Topic>>,
    /// The scheduler of future deliveries.
    timeline: Timeline<Message, Topic>,
    /// Channel-to-subscribers mapping, as an association list with unique
    /// keys; each list holds handles in registration order.
    subscriptions: Vec<(Channel<Topic>, Vec<ActorHandle>)>,
    /// The FIFO of envelopes awaiting synchronous delivery.
    message_queue: VecDeque<RcEnvelope<Message, Topic>>,
    /// Every delivery ever made: which actor received which envelope at
    /// which logical time — the kernel's observable history, kept in ghost
    /// code only.
    delivery_log: Ghost<Seq<(ActorHandle, RcEnvelope<Message, Topic>, Time)>>,
    /// Every envelope ever handed to `route` or `silent_route`, in order,
    /// whether it was dispatched, consumed or refused — the routing
    /// history, kept in ghost code only.
    routed_log: Ghost<Seq<RcEnvelope<Message, Topic>>>,
    /// An early exit has been requested.
    stop_requested: bool,
    /// A diagnostic pause has been requested.
    debug_requested: bool,
}

impl<Message, Topic> Router<Message, Topic> where Message: Clone, Topic: BoundedTopic {
    /// The registered actors, in registration order.
    pub closed spec fn actors_spec(&self) -> Seq<ActorSlot<Message, Topic>> {
        self.actors@
    }

    /// How many actors are registered.
    pub open spec fn actor_count(&self) -> int {
        self.actors_spec().len() as int
    }

    /// The owned timeline.
    pub closed spec fn timeline_spec(&self) -> Timeline<Message, Topic> {
        self.timeline
    }

    /// The current logical time.
    pub open spec fn now_spec(&self) -> Time {
        self.timeline_spec().now_spec()
    }

    /// The subscription table: channel/subscriber-list pairs in the order
    /// the channels were first subscribed to.
    pub closed spec fn subs_pairs(&self) -> Seq<(Channel<Topic>, Seq<ActorHandle>)> {
        self.subscriptions@.map_values(|p: (Channel<Topic>, Vec<ActorHandle>)| (p.0, p.1@))
    }

    /// The subscribers of channel `c`, in registration order; empty when
    /// nobody subscribed.
    pub open spec fn subs_of(&self, c: Channel<Topic>) -> Seq<ActorHandle> {
        lookup_subs(self.subs_pairs(), c)
    }

    /// The immediate-delivery queue, front first.
    pub closed spec fn queue_spec(&self) -> Seq<RcEnvelope<Message, Topic>> {
        self.message_queue@
    }

    /// The deliveries made so far, in order: the handle of the receiving
    /// actor, the envelope handed to its `receive_message`, and the logical
    /// time of the hand-over.
    pub closed spec fn deliveries(&self) -> Seq<(ActorHandle, RcEnvelope<Message, Topic>, Time)> {
        self.delivery_log@
    }

    /// The envelopes handed to `route` or `silent_route` so far, in order,
    /// refused ones included. History, not state: `same_state` does not
    /// compare it.
    pub closed spec fn routed(&self) -> Seq<RcEnvelope<Message, Topic>> {
        self.routed_log@
    }

    /// Whether a `Stop` envelope has been observed.
    pub closed spec fn stop_spec(&self) -> bool {
        self.stop_requested
    }

    /// Whether a `Debug` envelope has been observed.
    pub closed spec fn debug_spec(&self) -> bool {
        self.debug_requested
    }

    /// Two router states with equal components. The routing history is not
    /// compared: it only ever grows, and the contracts state its growth
    /// separately.
    pub open spec fn same_state(&self, other: &Self) -> bool {
        &&& self.actors_spec() == other.actors_spec()
        &&& self.timeline_spec() == other.timeline_spec()
        &&& self.subs_pairs() == other.subs_pairs()
        &&& self.queue_spec() == other.queue_spec()
        &&& self.deliveries() == other.deliveries()
        &&& self.stop_spec() == other.stop_spec()
        &&& self.debug_spec() == other.debug_spec()
    }

    /// The router's invariant: the timeline is well-formed, the handle
    /// counter fits its type, subscription keys are unique, every
    /// subscriber list holds handles of registered actors, in registration
    /// (that is, non-decreasing) order, and the delivery history respects
    /// logical time — no actor has ever observed a delivery later than
    /// `now`, and the delivered times never decrease.
    pub open spec fn wf(&self) -> bool {
        &&& self.timeline_spec().wf()
        &&& (forall|i: int|
            0 <= i < self.deliveries().len() ==> (#[trigger] self.deliveries()[i]).2
                <= self.now_spec())
        &&& (forall|i: int, j: int|
            0 <= i <= j < self.deliveries().len() ==> (#[trigger] self.deliveries()[i]).2 <= (
            #[trigger] self.deliveries()[j]).2)
        &&& self.actor_count() <= u32::MAX as int
        &&& (forall|i: int, j: int|
            0 <= i < j < self.subs_pairs().len() ==> (#[trigger] self.subs_pairs()[i]).0 != (
            #[trigger] self.subs_pairs()[j]).0)
        &&& (forall|i: int, k: int|
            0 <= i < self.subs_pairs().len() && 0 <= k < self.subs_pairs()[i].1.len() ==> (
            (#[trigger] self.subs_pairs()[i].1[k]) as int) < self.actor_count())
        &&& (forall|i: int, k: int, l: int|
            0 <= i < self.subs_pairs().len() && 0 <= k <= l < self.subs_pairs()[i].1.len()
                ==> (#[trigger] self.subs_pairs()[i].1[k]) <= (
            #[trigger] self.subs_pairs()[i].1[l]))
    }
}

impl<Message, Topic> Default for Router<Message, Topic> where
    Message: Clone,
    Topic: BoundedTopic,
 {
    /// An empty router: no actors, no subscriptions, an empty queue, and a
    /// fresh timeline at logical time zero.
    fn default() -> (r: Self)
        ensures
            r.wf(),
            r.actor_count() == 0,
            r.now_spec() == 0,
            r.timeline_spec().events() == Seq::<Event<Message, Topic>>::empty(),
            r.subs_pairs() == Seq::<(Channel<Topic>, Seq<ActorHandle>)>::empty(),
            r.queue_spec() == Seq::<RcEnvelope<Message, Topic>>::empty(),
            r.deliveries() == Seq::<(ActorHandle, RcEnvelope<Message, Topic>, Time)>::empty(),
            r.routed() == Seq::<RcEnvelope<Message, Topic>>::empty(),
            !r.stop_spec(),
            !r.debug_spec(),
    {
        Router {
            actors: Vec::new(),
            timeline: Timeline::default(),
            subscriptions: Vec::new(),
            message_queue: VecDeque::new(),
            delivery_log: Ghost(Seq::empty()),
            routed_log: Ghost(Seq::empty()),
            stop_requested: false,
            debug_requested: false,
        }
    }
}

impl<Message, Topic> Router<Message, Topic> where Message: Clone, Topic: BoundedTopic {
    /// An empty router, ready for registration.
    pub fn new() -> (r: Self)
        ensures
            r.wf(),
            r.actor_count() == 0,
            r.now_spec() == 0,
            r.timeline_spec().events() == Seq::<Event<Message, Topic>>::empty(),
            r.subs_pairs() == Seq::<(Channel<Topic>, Seq<ActorHandle>)>::empty(),
            r.queue_spec() == Seq::<RcEnvelope<Message, Topic>>::empty(),
            r.deliveries() == Seq::<(ActorHandle, RcEnvelope<Message, Topic>, Time)>::empty(),
            r.routed() == Seq::<RcEnvelope<Message, Topic>>::empty(),
            !r.stop_spec(),
            !r.debug_spec(),
    {
        Router::default()
    }

    /// The index of the subscription-table entry for `c`, if there is one.
    fn find_channel(&self, c: &Channel<Topic>) -> (r: Option<usize>)
        requires
            topic_eq_exact::<Topic>(),
        ensures
            match r {
                Some(i) => 0 <= i < self.subs_pairs().len() && self.subs_pairs()[i as int].0 == *c,
                None => forall|i: int|
                    0 <= i < self.subs_pairs().len() ==> (#[trigger] self.subs_pairs()[i]).0 != *c,
            },
    {
        let n = self.subscriptions.len();
        let mut i: usize = 0;
        while i < n
            invariant
                topic_eq_exact::<Topic>(),
                n == self.subs_pairs().len(),
                0 <= i <= n,
                forall|k: int| 0 <= k < i ==> (#[trigger] self.subs_pairs()[k]).0 != *c,
            decreases n - i,
        {
            if self.subscriptions[i].0 == *c {
                return Some(i);
            }
            i = i + 1;
        }
        None
    }
}

impl<Message, Topic> Router<Message, Topic> where Message: Clone, Topic: BoundedTopic {
    /// Adds an actor to the router, which owns it from now on. The actor is
    /// assigned the next sequential handle — counting up from zero in
    /// registration order, never to change afterwards — and its `register`
    /// callback is invoked once with that handle. The subscriptions it
    /// returns are merged into the table, appending the new handle to each
    /// requested channel's subscriber list (once per request: no duplicate
    /// detection is performed), and its initial envelopes are appended to
    /// the back of the immediate queue.
    pub fn add_actor(&mut self, actor: Box<dyn Actor<Message, Topic>>) -> (handle: ActorHandle)
        requires
            topic_eq_exact::<Topic>(),
            old(self).wf(),
            old(self).actor_count() < u32::MAX as int,
        ensures
            final(self).wf(),
            handle as int == old(self).actor_count(),
            final(self).actor_count() == old(self).actor_count() + 1,
            forall|i: int|
                0 <= i < old(self).actor_count() ==> (#[trigger] final(self).actors_spec()[i])
                    == old(self).actors_spec()[i],
            final(self).timeline_spec() == old(self).timeline_spec(),
            final(self).stop_spec() == old(self).stop_spec(),
            final(self).debug_spec() == old(self).debug_spec(),
            old(self).queue_spec().is_prefix_of(final(self).queue_spec()),
            final(self).deliveries() == old(self).deliveries(),
            final(self).routed() == old(self).routed(),
            forall|c: Channel<Topic>|
                old(self).subs_of(c).is_prefix_of(#[trigger] final(self).subs_of(c)),
            forall|c: Channel<Topic>, k: int|
                old(self).subs_of(c).len() <= k < final(self).subs_of(c).len() ==> (#[trigger] final(
                self).subs_of(c)[k]) == handle,
    {
        let ghost orig = *old(self);
        let idx: usize = self.actors.len();
        let handle: ActorHandle = idx as ActorHandle;
        let slot = ActorSlot::new(actor);
        let ghost slot0 = slot;
        self.actors.push(slot);
        let a = &mut self.actors[idx];
        let (new_subs, new_messages) = a.inner.register(handle);
        let ghost acts = self.actors_spec();
        proof {
            assert(self.subs_pairs() == orig.subs_pairs());
            assert(self.timeline_spec() == orig.timeline_spec());
            assert(self.deliveries() == orig.deliveries());
            assert(self.wf());
            assert forall|i: int|
                0 <= i < orig.actor_count() implies (#[trigger] acts[i]) == orig.actors_spec()[i] by {
                assert(acts[i] == orig.actors_spec().push(slot0)[i]);
            }
        }

        let mut remaining = new_messages;
        while remaining.len() > 0
            invariant
                self.actor_count() == orig.actor_count() + 1,
                self.actors_spec() == acts,
                self.subs_pairs() == orig.subs_pairs(),
                self.timeline_spec() == orig.timeline_spec(),
                self.deliveries() == orig.deliveries(),
                self.routed() == orig.routed(),
                self.stop_spec() == orig.stop_spec(),
                self.debug_spec() == orig.debug_spec(),
                orig.queue_spec().is_prefix_of(self.queue_spec()),
            decreases remaining.len(),
        {
            let envelope = remaining.remove(0);
            let ghost qpre = self.queue_spec();
            self.message_queue.push_back(envelope);
            proof {
                lemma_prefix_push(orig.queue_spec(), qpre, self.queue_spec().last());
                assert(self.queue_spec() == qpre.push(self.queue_spec().last()));
            }
        }
        proof {
            assert(self.timeline_spec().wf());
            assert(self.deliveries() == orig.deliveries());
            assert(self.wf());
        }

        let mut si: usize = 0;
        while si < new_subs.len()
            invariant
                topic_eq_exact::<Topic>(),
                self.wf(),
                si <= new_subs.len(),
                handle as int == orig.actor_count(),
                self.actor_count() == orig.actor_count() + 1,
                self.actors_spec() == acts,
                self.timeline_spec() == orig.timeline_spec(),
                self.stop_spec() == orig.stop_spec(),
                self.debug_spec() == orig.debug_spec(),
                orig.queue_spec().is_prefix_of(self.queue_spec()),
                self.deliveries() == orig.deliveries(),
                self.routed() == orig.routed(),
                forall|c: Channel<Topic>|
                    orig.subs_of(c).is_prefix_of(#[trigger] self.subs_of(c)),
                forall|c: Channel<Topic>, m: int|
                    orig.subs_of(c).len() <= m < self.subs_of(c).len() ==> (#[trigger] self.subs_of(
                    c)[m]) == handle,
            decreases new_subs.len() - si,
        {
            let ghost pre = *self;
            let channel = new_subs[si];
            let ghost pairs = self.subs_pairs();
            match self.find_channel(&channel) {
                Some(k) => {
                    let pair = &mut self.subscriptions[k];
                    let ghost key = pair.0;
                    let ghost list = pair.1@;
                    pair.1.push(handle);
                    proof {
                        let post = pairs.update(k as int, (key, list.push(handle)));
                        assert(self.subs_pairs() =~= post);
                        assert(pairs[k as int] == (key, list));
                        assert forall|c: Channel<Topic>|
                            orig.subs_of(c).is_prefix_of(#[trigger] self.subs_of(c)) by {
                            assert(pre.subs_of(c) == lookup_subs(pairs, c));
                            lemma_lookup_update(pairs, k as int, (key, list.push(handle)), c);
                            if c == key {
                                lemma_lookup_at(pairs, c, k as int);
                                lemma_prefix_push(orig.subs_of(c), lookup_subs(pairs, c), handle);
                            }
                        }
                        assert forall|c: Channel<Topic>, m: int|
                            orig.subs_of(c).len() <= m < self.subs_of(c).len() implies (
                        #[trigger] self.subs_of(c)[m]) == handle by {
                            assert(pre.subs_of(c) == lookup_subs(pairs, c));
                            lemma_lookup_update(pairs, k as int, (key, list.push(handle)), c);
                            if c == key {
                                lemma_lookup_at(pairs, c, k as int);
                                assert(self.subs_of(c) == lookup_subs(pairs, c).push(handle));
                                if m < lookup_subs(pairs, c).len() {
                                    assert(pre.subs_of(c)[m] == handle);
                                }
                            }
                        }
                        assert forall|i: int, j: int|
                            0 <= i < j < self.subs_pairs().len() implies (
                        #[trigger] self.subs_pairs()[i]).0 != (#[trigger] self.subs_pairs()[j]).0 by {
                            assert((#[trigger] pairs[i]).0 != (#[trigger] pairs[j]).0);
                        }
                        assert forall|i: int, m: int|
                            0 <= i < self.subs_pairs().len() && 0 <= m < self.subs_pairs()[i].1.len()
                            implies ((#[trigger] self.subs_pairs()[i].1[m]) as int)
                            < self.actor_count() by {
                            if i == k as int && m == list.len() {
                            } else {
                                assert(((#[trigger] pairs[i].1[m]) as int) < pre.actor_count());
                            }
                        }
                        assert forall|i: int, m: int, l: int|
                            0 <= i < self.subs_pairs().len() && 0 <= m <= l
                                < self.subs_pairs()[i].1.len() implies (
                        #[trigger] self.subs_pairs()[i].1[m]) <= (
                        #[trigger] self.subs_pairs()[i].1[l]) by {
                            if i == k as int && l == list.len() {
                                if m < list.len() {
                                    assert(((#[trigger] pairs[i].1[m]) as int) < pre.actor_count());
                                }
                            } else {
                                assert((#[trigger] pairs[i].1[m]) <= (#[trigger] pairs[i].1[l]));
                            }
                        }
                    }
                },
                None => {
                    let mut fresh: Vec<ActorHandle> = Vec::new();
                    fresh.push(handle);
                    self.subscriptions.push((channel, fresh));
                    proof {
                        let post = pairs.push((channel, seq![handle]));
                        assert(self.subs_pairs() =~= post);
                        lemma_lookup_absent(pairs, channel);
                        assert forall|c: Channel<Topic>|
                            orig.subs_of(c).is_prefix_of(#[trigger] self.subs_of(c)) by {
                            assert(pre.subs_of(c) == lookup_subs(pairs, c));
                            lemma_lookup_push(pairs, (channel, seq![handle]), c);
                            if c == channel {
                                assert(orig.subs_of(c).is_prefix_of(lookup_subs(pairs, c)));
                                assert(orig.subs_of(c).len() == 0);
                                assert(self.subs_of(c) == seq![handle]);
                                assert(orig.subs_of(c).is_prefix_of(self.subs_of(c)));
                            }
                        }
                        assert forall|c: Channel<Topic>, m: int|
                            orig.subs_of(c).len() <= m < self.subs_of(c).len() implies (
                        #[trigger] self.subs_of(c)[m]) == handle by {
                            assert(pre.subs_of(c) == lookup_subs(pairs, c));
                            lemma_lookup_push(pairs, (channel, seq![handle]), c);
                            if c == channel {
                                assert(self.subs_of(c) == seq![handle]);
                            } else {
                                if m < pre.subs_of(c).len() {
                                    assert(pre.subs_of(c)[m] == handle);
                                }
                            }
                        }
                        assert forall|i: int, j: int|
                            0 <= i < j < self.subs_pairs().len() implies (
                        #[trigger] self.subs_pairs()[i]).0 != (#[trigger] self.subs_pairs()[j]).0 by {
                            if j < pairs.len() {
                                assert((#[trigger] pairs[i]).0 != (#[trigger] pairs[j]).0);
                            } else {
                                assert((#[trigger] pairs[i]).0 != channel);
                            }
                        }
                        assert forall|i: int, m: int|
                            0 <= i < self.subs_pairs().len() && 0 <= m < self.subs_pairs()[i].1.len()
                            implies ((#[trigger] self.subs_pairs()[i].1[m]) as int)
                            < self.actor_count() by {
                            if i < pairs.len() {
                                assert(((#[trigger] pairs[i].1[m]) as int) < pre.actor_count());
                            }
                        }
                        assert forall|i: int, m: int, l: int|
                            0 <= i < self.subs_pairs().len() && 0 <= m <= l
                                < self.subs_pairs()[i].1.len() implies (
                        #[trigger] self.subs_pairs()[i].1[m]) <= (
                        #[trigger] self.subs_pairs()[i].1[l]) by {
                            if i < pairs.len() {
                                assert((#[trigger] pairs[i].1[m]) <= (#[trigger] pairs[i].1[l]));
                            }
                        }
                    }
                },
            }
            si = si + 1;
        }

        handle
    }
}

impl<Message, Topic> Router<Message, Topic> where Message: Clone, Topic: BoundedTopic {
    /// Intercepts the system channels, before any subscriber dispatch.
    /// Returns `Ok(true)` when the envelope is consumed here — `Stop` and
    /// `Debug`, which set their flag and suppress dispatch — and `Ok(false)`
    /// when dispatch should go on. A `ScheduleEvent` with a valid time is
    /// pushed onto the timeline (and still dispatched: other actors may
    /// listen on that channel); one without a time, or aimed into the past,
    /// is refused. A `Time` query — no time set — enqueues a reply carrying
    /// the current logical time.
    fn act_on_system_message(&mut self, envelope: &RcEnvelope<Message, Topic>) -> (r: Result<
        bool,
        RouterError,
    >)
        requires
            old(self).wf(),
        ensures
            final(self).wf(),
            final(self).actors_spec() == old(self).actors_spec(),
            final(self).subs_pairs() == old(self).subs_pairs(),
            final(self).now_spec() == old(self).now_spec(),
            final(self).deliveries() == old(self).deliveries(),
            final(self).routed() == old(self).routed(),
            r is Err <==> schedule_refusal(envelope.channel, envelope.time, old(self).now_spec())
                is Some,
            schedule_refusal(envelope.channel, envelope.time, old(self).now_spec()) matches Some(e)
                ==> r == Err::<bool, RouterError>(e) && final(self).same_state(old(self)),
            r == Ok::<bool, RouterError>(true) <==> (envelope.channel is Stop || envelope.channel
                is Debug),
            envelope.channel is ScheduleEvent && envelope.time is Some && envelope.time->0 >= old(
                self,
            ).now_spec() ==> {
                &&& final(self).timeline_spec().events() == old(self).timeline_spec().events().push(
                    (Event { time: envelope.time->0, envelope: *envelope }),
                )
                &&& final(self).queue_spec() == old(self).queue_spec()
                &&& final(self).stop_spec() == old(self).stop_spec()
                &&& final(self).debug_spec() == old(self).debug_spec()
            },
            envelope.channel is Time && envelope.time is None ==> {
                &&& replied(old(self).queue_spec(), final(self).queue_spec(), old(self).now_spec())
                &&& final(self).timeline_spec() == old(self).timeline_spec()
                &&& final(self).stop_spec() == old(self).stop_spec()
                &&& final(self).debug_spec() == old(self).debug_spec()
            },
            envelope.channel is Stop ==> {
                &&& final(self).stop_spec()
                &&& final(self).debug_spec() == old(self).debug_spec()
                &&& final(self).queue_spec() == old(self).queue_spec()
                &&& final(self).timeline_spec() == old(self).timeline_spec()
            },
            envelope.channel is Debug ==> {
                &&& final(self).debug_spec()
                &&& final(self).stop_spec() == old(self).stop_spec()
                &&& final(self).queue_spec() == old(self).queue_spec()
                &&& final(self).timeline_spec() == old(self).timeline_spec()
            },
            !(envelope.channel is ScheduleEvent) && !(envelope.channel is Stop) && !(
            envelope.channel is Debug) && !(envelope.channel is Time && envelope.time is None)
                ==> final(self).same_state(old(self)),
    {
        match (&envelope.channel, &envelope.time) {
            (Channel::ScheduleEvent, Option::Some(t)) => {
                if *t < self.timeline.now() {
                    return Err(RouterError::ScheduledInPast);
                }
                let event = Event { time: *t, envelope: dup_rc(envelope) };
                match self.timeline.push(event) {
                    Ok(()) => {
                        proof {
                            assert(self.subs_pairs() == old(self).subs_pairs());
                            assert(self.deliveries() == old(self).deliveries());
                            assert(self.wf());
                        }
                        Ok(false)
                    },
                    Err(_) => unreached(),
                }
            },
            (Channel::ScheduleEvent, Option::None) => Err(RouterError::MissingScheduleTime),
            (Channel::Time, Option::None) => {
                let reply = Envelope {
                    from: TIMELINE_HANDLE,
                    channel: Channel::Time,
                    message: None,
                    time: Some(self.timeline.now()),
                };
                let ghost qpre = self.queue_spec();
                self.message_queue.push_back(Rc::new(reply));
                proof {
                    lemma_prefix_refl(qpre);
                    lemma_prefix_push(qpre, qpre, self.queue_spec().last());
                    assert(self.queue_spec() == qpre.push(self.queue_spec().last()));
                    assert(self.subs_pairs() == old(self).subs_pairs());
                    assert(self.deliveries() == old(self).deliveries());
                    assert(self.wf());
                }
                Ok(false)
            },
            (Channel::Stop, _) => {
                self.stop_requested = true;
                proof {
                    assert(self.subs_pairs() == old(self).subs_pairs());
                    assert(self.deliveries() == old(self).deliveries());
                    assert(self.wf());
                }
                Ok(true)
            },
            (Channel::Debug, _) => {
                self.debug_requested = true;
                proof {
                    assert(self.subs_pairs() == old(self).subs_pairs());
                    assert(self.deliveries() == old(self).deliveries());
                    assert(self.wf());
                }
                Ok(true)
            },
            _ => Ok(false),
        }
    }

    /// The subscriber list of a channel, as a fresh vector of handles.
    fn subscriber_list(&self, channel: &Channel<Topic>) -> (subs: Vec<ActorHandle>)
        requires
            topic_eq_exact::<Topic>(),
            self.wf(),
        ensures
            subs@ == self.subs_of(*channel),
            forall|m: int|
                0 <= m < subs@.len() ==> ((#[trigger] subs@[m]) as int) < self.actor_count(),
    {
        match self.find_channel(channel) {
            None => {
                proof {
                    lemma_lookup_absent(self.subs_pairs(), *channel);
                }
                Vec::new()
            },
            Some(k) => {
                proof {
                    lemma_lookup_at(self.subs_pairs(), *channel, k as int);
                }
                let ghost list = self.subs_pairs()[k as int].1;
                let n = self.subscriptions[k].1.len();
                let mut out: Vec<ActorHandle> = Vec::new();
                let mut t: usize = 0;
                while t < n
                    invariant
                        0 <= k < self.subs_pairs().len(),
                        list == self.subs_pairs()[k as int].1,
                        n == list.len(),
                        t <= n,
                        out@ == list.subrange(0, t as int),
                    decreases n - t,
                {
                    out.push(self.subscriptions[k].1[t]);
                    proof {
                        assert(out@ =~= list.subrange(0, t as int + 1));
                    }
                    t = t + 1;
                }
                proof {
                    assert(out@ =~= list);
                }
                out
            },
        }
    }

    /// Delivers one envelope to every current subscriber of its channel, in
    /// registration order, each receiving a shared reference to the same
    /// envelope, and collects every response in order. Touches nothing but
    /// the subscribed actors: a channel without subscribers is a silent
    /// no-op.
    fn dispatch(&mut self, envelope: &RcEnvelope<Message, Topic>) -> (responses: Vec<
        RcEnvelope<Message, Topic>,
    >)
        requires
            topic_eq_exact::<Topic>(),
            old(self).wf(),
        ensures
            final(self).wf(),
            final(self).actors_spec().len() == old(self).actors_spec().len(),
            final(self).subs_pairs() == old(self).subs_pairs(),
            final(self).timeline_spec() == old(self).timeline_spec(),
            final(self).queue_spec() == old(self).queue_spec(),
            final(self).stop_spec() == old(self).stop_spec(),
            final(self).debug_spec() == old(self).debug_spec(),
            final(self).routed() == old(self).routed(),
            final(self).deliveries().len() == old(self).deliveries().len() + old(self).subs_of(
                envelope.channel,
            ).len(),
            old(self).deliveries().is_prefix_of(final(self).deliveries()),
            forall|i: int|
                old(self).deliveries().len() <= i < final(self).deliveries().len() ==> (
                #[trigger] final(self).deliveries()[i]) == (
                old(self).subs_of(envelope.channel)[i - old(self).deliveries().len()],
                *envelope,
                old(self).now_spec(),
                ),
            old(self).subs_of(envelope.channel).len() == 0 ==> final(self).actors_spec() == old(self).actors_spec() && responses@.len() == 0 && final(self).deliveries() == old(
                self,
            ).deliveries(),
    {
        let subscribers = self.subscriber_list(&envelope.channel);
        let mut responses: Vec<RcEnvelope<Message, Topic>> = Vec::new();
        let mut i: usize = 0;
        while i < subscribers.len()
            invariant
                self.wf(),
                i <= subscribers@.len(),
                forall|m: int|
                    0 <= m < subscribers@.len() ==> ((#[trigger] subscribers@[m]) as int)
                        < self.actor_count(),
                self.actors_spec().len() == old(self).actors_spec().len(),
                self.subs_pairs() == old(self).subs_pairs(),
                self.timeline_spec() == old(self).timeline_spec(),
                self.queue_spec() == old(self).queue_spec(),
                self.stop_spec() == old(self).stop_spec(),
                self.debug_spec() == old(self).debug_spec(),
                i == 0 ==> self.actors_spec() == old(self).actors_spec() && responses@.len() == 0,
                self.routed() == old(self).routed(),
                self.deliveries().len() == old(self).deliveries().len() + i,
                old(self).deliveries().is_prefix_of(self.deliveries()),
                forall|m: int|
                    old(self).deliveries().len() <= m < self.deliveries().len() ==> (
                    #[trigger] self.deliveries()[m]) == (
                    subscribers@[m - old(self).deliveries().len()],
                    *envelope,
                    old(self).now_spec(),
                    ),
            decreases subscribers@.len() - i,
        {
            let h = subscribers[i];
            let idx = h as usize;
            let ghost logpre = self.deliveries();
            let now = self.timeline.now();
            self.delivery_log = Ghost(self.delivery_log@.push((h, (*envelope), now)));
            proof {
                lemma_prefix_push(old(self).deliveries(), logpre, (h, (*envelope), now));
                assert(self.deliveries() == logpre.push((h, (*envelope), now)));
            }
            let env2 = dup_rc(envelope);
            let slot = &mut self.actors[idx];
            let mut resp = slot.inner.receive_message(env2);
            responses.append(&mut resp);
            i = i + 1;
        }
        responses
    }
}

impl<Message, Topic> Router<Message, Topic> where Message: Clone, Topic: BoundedTopic {
    /// Handles a single envelope: intercepts the system channels, then —
    /// unless a `Stop` or `Debug` consumed it — delivers it to every current
    /// subscriber of its channel in registration order and appends their
    /// responses to the back of the immediate queue (breadth-first fan-out).
    /// Routing never advances logical time. A `ScheduleEvent` without a
    /// time, or aimed before `now`, is refused with the matching error, and
    /// only then; the refusal leaves the router untouched.
    pub fn route(&mut self, envelope: RcEnvelope<Message, Topic>) -> (r: Result<(), RouterError>)
        requires
            topic_eq_exact::<Topic>(),
            old(self).wf(),
        ensures
            final(self).wf(),
            final(self).now_spec() == old(self).now_spec(),
            final(self).actors_spec().len() == old(self).actors_spec().len(),
            final(self).subs_pairs() == old(self).subs_pairs(),
            final(self).routed() == old(self).routed().push(envelope),
            r is Err <==> schedule_refusal(envelope.channel, envelope.time, old(self).now_spec())
                is Some,
            schedule_refusal(envelope.channel, envelope.time, old(self).now_spec()) matches Some(e)
                ==> r == Err::<(), RouterError>(e) && final(self).same_state(old(self)),
            envelope.channel is Stop ==> {
                &&& final(self).stop_spec()
                &&& final(self).debug_spec() == old(self).debug_spec()
                &&& final(self).queue_spec() == old(self).queue_spec()
                &&& final(self).timeline_spec() == old(self).timeline_spec()
                &&& final(self).actors_spec() == old(self).actors_spec()
            },
            envelope.channel is Debug ==> {
                &&& final(self).debug_spec()
                &&& final(self).stop_spec() == old(self).stop_spec()
                &&& final(self).queue_spec() == old(self).queue_spec()
                &&& final(self).timeline_spec() == old(self).timeline_spec()
                &&& final(self).actors_spec() == old(self).actors_spec()
            },
            !(envelope.channel is Stop) ==> final(self).stop_spec() == old(self).stop_spec(),
            !(envelope.channel is Debug) ==> final(self).debug_spec() == old(self).debug_spec(),
            envelope.channel is ScheduleEvent && envelope.time is Some && envelope.time->0 >= old(
                self,
            ).now_spec() ==> final(self).timeline_spec().events() == old(
                self,
            ).timeline_spec().events().push((Event { time: envelope.time->0, envelope: envelope })),
            !(envelope.channel is ScheduleEvent) ==> final(self).timeline_spec() == old(self).timeline_spec(),
            r is Ok && !(envelope.channel is Stop) && !(envelope.channel is Debug) ==> old(
                self,
            ).queue_spec().is_prefix_of(final(self).queue_spec()),
            r is Ok && !(envelope.channel is Stop) && !(envelope.channel is Debug) ==> {
                &&& final(self).deliveries().len() == old(self).deliveries().len() + old(
                    self,
                ).subs_of(envelope.channel).len()
                &&& old(self).deliveries().is_prefix_of(final(self).deliveries())
                &&& (forall|i: int|
                    old(self).deliveries().len() <= i < final(self).deliveries().len() ==> (
                    #[trigger] final(self).deliveries()[i]) == (
                    old(self).subs_of(envelope.channel)[i - old(self).deliveries().len()],
                    envelope,
                    old(self).now_spec(),
                    ))
            },
            envelope.channel is Stop || envelope.channel is Debug ==> final(self).deliveries()
                == old(self).deliveries(),
            r is Ok && envelope.channel is Time && envelope.time is None ==> final(self).queue_spec().len() > old(self).queue_spec().len() && final(self).queue_spec()[old(
                self,
            ).queue_spec().len() as int] == time_reply::<Message, Topic>(old(self).now_spec()),
            r is Ok && !(envelope.channel is Stop) && !(envelope.channel is Debug) && old(
                self,
            ).subs_of(envelope.channel).len() == 0 ==> final(self).actors_spec() == old(
                self,
            ).actors_spec() && (
            if envelope.channel is Time && envelope.time is None {
                replied(old(self).queue_spec(), final(self).queue_spec(), old(self).now_spec())
            } else {
                final(self).queue_spec() == old(self).queue_spec()
            }),
    {
        self.routed_log = Ghost(self.routed_log@.push(envelope));
        match self.act_on_system_message(&envelope) {
            Err(e) => Err(e),
            Ok(true) => Ok(()),
            Ok(false) => {
                let ghost tl_mid = self.timeline_spec();
                let ghost stop_mid = self.stop_spec();
                let ghost debug_mid = self.debug_spec();
                let mut remaining = self.dispatch(&envelope);
                let ghost qmid = self.queue_spec();
                let ghost log_mid = self.deliveries();
                let ghost routed_mid = self.routed();
                proof {
                    lemma_prefix_refl(qmid);
                }
                while remaining.len() > 0
                    invariant
                        self.wf(),
                        self.deliveries() == log_mid,
                        self.routed() == routed_mid,
                        self.now_spec() == old(self).now_spec(),
                        self.actors_spec().len() == old(self).actors_spec().len(),
                        self.subs_pairs() == old(self).subs_pairs(),
                        self.timeline_spec() == tl_mid,
                        self.stop_spec() == stop_mid,
                        self.debug_spec() == debug_mid,
                        old(self).subs_of(envelope.channel).len() == 0 ==> self.actors_spec()
                            == old(self).actors_spec() && self.queue_spec() == qmid
                            && remaining@.len() == 0,
                        qmid.is_prefix_of(self.queue_spec()),
                    decreases remaining.len(),
                {
                    let e = remaining.remove(0);
                    let ghost qpre = self.queue_spec();
                    self.message_queue.push_back(e);
                    proof {
                        lemma_prefix_push(qmid, qpre, self.queue_spec().last());
                        assert(self.queue_spec() == qpre.push(self.queue_spec().last()));
                        assert(self.subs_pairs() == old(self).subs_pairs());
                        assert(self.deliveries() == log_mid);
                        assert(self.wf());
                    }
                }
                proof {
                    assert(self.subs_pairs() == old(self).subs_pairs());
                    assert(self.wf());
                }
                Ok(())
            },
        }
    }

    /// Semantically `route`, but the subscribers' responses are collected
    /// and handed back to the caller instead of being enqueued — a
    /// synchronous request/response probe that bypasses the run loop. The
    /// system channels are intercepted exactly as in `route` (a consumed
    /// `Stop` or `Debug` yields no responses; a `Time` query still enqueues
    /// its reply).
    pub fn silent_route(&mut self, envelope: RcEnvelope<Message, Topic>) -> (r: Result<
        Vec<RcEnvelope<Message, Topic>>,
        RouterError,
    >)
        requires
            topic_eq_exact::<Topic>(),
            old(self).wf(),
        ensures
            final(self).wf(),
            final(self).now_spec() == old(self).now_spec(),
            final(self).actors_spec().len() == old(self).actors_spec().len(),
            final(self).subs_pairs() == old(self).subs_pairs(),
            final(self).routed() == old(self).routed().push(envelope),
            r is Err <==> schedule_refusal(envelope.channel, envelope.time, old(self).now_spec())
                is Some,
            schedule_refusal(envelope.channel, envelope.time, old(self).now_spec()) matches Some(e)
                ==> (r matches Err(e2) && e2 == e) && final(self).same_state(old(self)),
            envelope.channel is Stop ==> {
                &&& final(self).stop_spec()
                &&& final(self).debug_spec() == old(self).debug_spec()
                &&& final(self).queue_spec() == old(self).queue_spec()
                &&& final(self).timeline_spec() == old(self).timeline_spec()
                &&& final(self).actors_spec() == old(self).actors_spec()
                &&& (r matches Ok(v) && v@ == Seq::<RcEnvelope<Message, Topic>>::empty())
            },
            envelope.channel is Debug ==> {
                &&& final(self).debug_spec()
                &&& final(self).stop_spec() == old(self).stop_spec()
                &&& final(self).queue_spec() == old(self).queue_spec()
                &&& final(self).timeline_spec() == old(self).timeline_spec()
                &&& final(self).actors_spec() == old(self).actors_spec()
                &&& (r matches Ok(v) && v@ == Seq::<RcEnvelope<Message, Topic>>::empty())
            },
            !(envelope.channel is Stop) ==> final(self).stop_spec() == old(self).stop_spec(),
            !(envelope.channel is Debug) ==> final(self).debug_spec() == old(self).debug_spec(),
            envelope.channel is ScheduleEvent && envelope.time is Some && envelope.time->0 >= old(
                self,
            ).now_spec() ==> final(self).timeline_spec().events() == old(
                self,
            ).timeline_spec().events().push((Event { time: envelope.time->0, envelope: envelope })),
            !(envelope.channel is ScheduleEvent) ==> final(self).timeline_spec() == old(self).timeline_spec(),
            r is Ok && !(envelope.channel is Stop) && !(envelope.channel is Debug) ==> (
            if envelope.channel is Time && envelope.time is None {
                replied(old(self).queue_spec(), final(self).queue_spec(), old(self).now_spec())
            } else {
                final(self).queue_spec() == old(self).queue_spec()
            }),
            r is Ok && !(envelope.channel is Stop) && !(envelope.channel is Debug) ==> {
                &&& final(self).deliveries().len() == old(self).deliveries().len() + old(
                    self,
                ).subs_of(envelope.channel).len()
                &&& old(self).deliveries().is_prefix_of(final(self).deliveries())
                &&& (forall|i: int|
                    old(self).deliveries().len() <= i < final(self).deliveries().len() ==> (
                    #[trigger] final(self).deliveries()[i]) == (
                    old(self).subs_of(envelope.channel)[i - old(self).deliveries().len()],
                    envelope,
                    old(self).now_spec(),
                    ))
            },
            envelope.channel is Stop || envelope.channel is Debug ==> final(self).deliveries()
                == old(self).deliveries(),
            r is Ok && !(envelope.channel is Stop) && !(envelope.channel is Debug) && old(self).subs_of(envelope.channel).len() == 0 ==> final(self).actors_spec() == old(self).actors_spec() && (r matches Ok(v) && v@ == Seq::<
                RcEnvelope<Message, Topic>,
            >::empty()),
    {
        self.routed_log = Ghost(self.routed_log@.push(envelope));
        match self.act_on_system_message(&envelope) {
            Err(e) => Err(e),
            Ok(true) => Ok(Vec::new()),
            Ok(false) => Ok(self.dispatch(&envelope)),
        }
    }

    /// Routes the envelope at the front of the immediate queue, if there
    /// is one: pops it and hands it to `route`. Returns `Ok(false)` — the
    /// router untouched — when the queue is empty, `Ok(true)` when the head
    /// was routed, and the head's scheduling refusal when there was one; a
    /// refused head is consumed and everything else is left as it was.
    fn route_next(&mut self) -> (r: Result<bool, RouterError>)
        requires
            topic_eq_exact::<Topic>(),
            old(self).wf(),
        ensures
            final(self).wf(),
            final(self).now_spec() == old(self).now_spec(),
            final(self).actors_spec().len() == old(self).actors_spec().len(),
            final(self).subs_pairs() == old(self).subs_pairs(),
            old(self).deliveries().is_prefix_of(final(self).deliveries()),
            old(self).queue_spec().len() == 0 ==> r == Ok::<bool, RouterError>(false) && final(self).same_state(old(self)) && final(self).routed() == old(self).routed(),
            old(self).queue_spec().len() > 0 ==> {
                let head = old(self).queue_spec()[0];
                &&& final(self).routed() == old(self).routed().push(head)
                &&& (r is Err <==> schedule_refusal(head.channel, head.time, old(self).now_spec())
                    is Some)
                &&& (r is Ok ==> r == Ok::<bool, RouterError>(true))
                &&& (r matches Err(e) ==> {
                    &&& schedule_refusal(head.channel, head.time, old(self).now_spec()) == Some(e)
                    &&& final(self).queue_spec() == old(self).queue_spec().drop_first()
                    &&& final(self).timeline_spec() == old(self).timeline_spec()
                    &&& final(self).deliveries() == old(self).deliveries()
                    &&& final(self).actors_spec() == old(self).actors_spec()
                })
                &&& final(self).stop_spec() == (old(self).stop_spec() || head.channel is Stop)
                &&& final(self).debug_spec() == (old(self).debug_spec() || head.channel is Debug)
                &&& (head.channel is Stop || head.channel is Debug ==> {
                    &&& final(self).deliveries() == old(self).deliveries()
                    &&& final(self).queue_spec() == old(self).queue_spec().drop_first()
                    &&& final(self).timeline_spec() == old(self).timeline_spec()
                    &&& final(self).actors_spec() == old(self).actors_spec()
                })
                &&& (r is Ok && !(head.channel is Stop) && !(head.channel is Debug) ==> {
                    &&& final(self).deliveries().len() == old(self).deliveries().len() + old(
                        self,
                    ).subs_of(head.channel).len()
                    &&& (forall|i: int|
                        old(self).deliveries().len() <= i < final(self).deliveries().len() ==> (
                        #[trigger] final(self).deliveries()[i]) == (
                        old(self).subs_of(head.channel)[i - old(self).deliveries().len()],
                        head,
                        old(self).now_spec(),
                        ))
                    &&& old(self).queue_spec().drop_first().is_prefix_of(final(self).queue_spec())
                })
                &&& (head.channel is ScheduleEvent && head.time is Some && head.time->0 >= old(
                    self,
                ).now_spec() ==> final(self).timeline_spec().events() == old(
                    self,
                ).timeline_spec().events().push((Event { time: head.time->0, envelope: head })))
                &&& (!(head.channel is ScheduleEvent) ==> final(self).timeline_spec() == old(
                    self,
                ).timeline_spec())
            },
    {
        match self.message_queue.pop_front() {
            None => Ok(false),
            Some(envelope) => match self.route(envelope) {
                Ok(()) => Ok(true),
                Err(e) => Err(e),
            },
        }
    }

    /// Fires the earliest scheduled event, if there is one: pops it —
    /// advancing logical time to its instant — wraps it as a fresh
    /// `TimelineEvent` envelope carrying the original sender, the scheduled
    /// payload and the popped time, and routes that envelope, delivering it
    /// to every `TimelineEvent` subscriber in registration order at the
    /// event's own instant. The original channel of the scheduled envelope
    /// is not re-dispatched. May only be called with the immediate queue
    /// fully drained: the timeline is never polled while synchronous work
    /// is pending. Returns false, the router untouched, when nothing is
    /// scheduled.
    fn advance_timeline(&mut self) -> (fired: bool)
        requires
            topic_eq_exact::<Topic>(),
            old(self).wf(),
            old(self).queue_spec().len() == 0,
        ensures
            final(self).wf(),
            final(self).actors_spec().len() == old(self).actors_spec().len(),
            final(self).subs_pairs() == old(self).subs_pairs(),
            final(self).now_spec() >= old(self).now_spec(),
            final(self).stop_spec() == old(self).stop_spec(),
            final(self).debug_spec() == old(self).debug_spec(),
            old(self).deliveries().is_prefix_of(final(self).deliveries()),
            old(self).timeline_spec().events().len() == 0 ==> !fired && final(self).same_state(
                old(self),
            ) && final(self).routed() == old(self).routed(),
            old(self).timeline_spec().events().len() > 0 ==> {
                let ev = old(self).timeline_spec().events()[earliest_index(
                    old(self).timeline_spec().events(),
                )];
                &&& fired
                &&& final(self).now_spec() == ev.time
                &&& final(self).timeline_spec().events() == old(
                    self,
                ).timeline_spec().events().remove(
                    earliest_index(old(self).timeline_spec().events()),
                )
                &&& final(self).routed().len() == old(self).routed().len() + 1
                &&& old(self).routed().is_prefix_of(final(self).routed())
                &&& final(self).routed().last().from == ev.envelope.from
                &&& final(self).routed().last().channel is TimelineEvent
                &&& final(self).routed().last().time == Some(ev.time)
                &&& payload_carried(ev.envelope.message, final(self).routed().last().message)
                &&& final(self).deliveries().len() == old(self).deliveries().len() + old(
                    self,
                ).subs_of(Channel::TimelineEvent).len()
                &&& (forall|i: int|
                    old(self).deliveries().len() <= i < final(self).deliveries().len() ==> (
                    #[trigger] final(self).deliveries()[i]) == (
                    old(self).subs_of(Channel::TimelineEvent)[i - old(self).deliveries().len()],
                    final(self).routed().last(),
                    ev.time,
                    ))
            },
    {
        let ghost pre_log = self.deliveries();
        let ghost pre_now = self.now_spec();
        match self.timeline.pop() {
            None => false,
            Some(event) => {
                proof {
                    assert(self.deliveries() == pre_log);
                    assert forall|i: int|
                        0 <= i < self.deliveries().len() implies (
                    #[trigger] self.deliveries()[i]).2 <= self.now_spec() by {
                        assert((#[trigger] pre_log[i]).2 <= pre_now);
                    }
                    assert(self.wf());
                }
                let message: Option<Message> = match &event.envelope.message {
                    Some(m) => Some(m.clone()),
                    None => None,
                };
                let wrapped = Rc::new(
                    Envelope {
                        from: event.envelope.from,
                        channel: Channel::TimelineEvent,
                        message,
                        time: Some(event.time),
                    },
                );
                let ghost w = wrapped;
                proof {
                    assert(payload_carried(event.envelope.message, w.message));
                }
                match self.route(wrapped) {
                    Ok(()) => true,
                    Err(_) => unreached(),
                }
            },
        }
    }

    /// Drives the event loop, for at most `max_steps` envelope routings.
    /// Each step first honours a pending stop request; otherwise it routes
    /// the front of the immediate queue — the immediate queue is always
    /// fully drained, cascaded replies included, before the timeline is
    /// polled (`advance_timeline` demands an empty queue) — and only when
    /// the queue is empty fires the earliest scheduled event as a
    /// `TimelineEvent` delivery. The loop ends when a stop was requested
    /// (`Stopped`; whatever remains queued or scheduled is left
    /// unprocessed, and any `Stop` envelope routed during the run is the
    /// last envelope routed), when queue and timeline are both empty
    /// (`Exhausted`), when exactly `max_steps` envelopes have been routed
    /// (`OutOfSteps`), or with the refusal of the last routed envelope
    /// (`Err`), which halts the loop at once. Logical time never decreases
    /// across a run, and a router that was already stopped is left exactly
    /// as it was, routing and delivering nothing.
    pub fn run(&mut self, max_steps: u64) -> (r: Result<RunOutcome, RouterError>)
        requires
            topic_eq_exact::<Topic>(),
            old(self).wf(),
        ensures
            final(self).wf(),
            final(self).subs_pairs() == old(self).subs_pairs(),
            final(self).actors_spec().len() == old(self).actors_spec().len(),
            final(self).now_spec() >= old(self).now_spec(),
            old(self).deliveries().is_prefix_of(final(self).deliveries()),
            old(self).routed().is_prefix_of(final(self).routed()),
            forall|p: int|
                old(self).routed().len() <= p < final(self).routed().len() && (#[trigger] final(
                self).routed()[p]).channel is Stop ==> p == final(self).routed().len() - 1,
            r == Ok::<RunOutcome, RouterError>(RunOutcome::Stopped) ==> final(self).stop_spec(),
            r == Ok::<RunOutcome, RouterError>(RunOutcome::Stopped) && !old(self).stop_spec()
                ==> final(self).routed().len() > old(self).routed().len() && final(self).routed().last().channel is Stop,
            r == Ok::<RunOutcome, RouterError>(RunOutcome::Exhausted) ==> {
                &&& !final(self).stop_spec()
                &&& final(self).queue_spec().len() == 0
                &&& final(self).timeline_spec().events().len() == 0
            },
            r == Ok::<RunOutcome, RouterError>(RunOutcome::OutOfSteps) ==> final(self).routed().len() == old(self).routed().len() + max_steps,
            r matches Err(e) ==> final(self).routed().len() > old(self).routed().len()
                && schedule_refusal(
                final(self).routed().last().channel,
                final(self).routed().last().time,
                final(self).now_spec(),
            ) == Some(e),
            old(self).stop_spec() ==> r == Ok::<RunOutcome, RouterError>(RunOutcome::Stopped)
                && final(self).same_state(old(self)) && final(self).routed() == old(self).routed(),
            !old(self).stop_spec() && old(self).queue_spec().len() == 0 && old(
                self,
            ).timeline_spec().events().len() == 0 && max_steps > 0 ==> r == Ok::<
                RunOutcome,
                RouterError,
            >(RunOutcome::Exhausted) && final(self).same_state(old(self)) && final(self).routed()
                == old(self).routed(),
            !old(self).stop_spec() && old(self).queue_spec().len() > 0 && max_steps > 0 ==> {
                &&& final(self).routed().len() > old(self).routed().len()
                &&& final(self).routed()[old(self).routed().len() as int] == old(
                    self,
                ).queue_spec()[0]
            },
            !old(self).stop_spec() && old(self).queue_spec().len() == 0 && old(
                self,
            ).timeline_spec().events().len() > 0 && max_steps > 0 ==> {
                let ev = old(self).timeline_spec().events()[earliest_index(
                    old(self).timeline_spec().events(),
                )];
                let w = final(self).routed()[old(self).routed().len() as int];
                &&& final(self).routed().len() > old(self).routed().len()
                &&& w.from == ev.envelope.from
                &&& w.channel is TimelineEvent
                &&& w.time == Some(ev.time)
                &&& payload_carried(ev.envelope.message, w.message)
            },
    {
        let mut steps: u64 = 0;
        loop
            invariant
                topic_eq_exact::<Topic>(),
                self.wf(),
                steps <= max_steps,
                self.subs_pairs() == old(self).subs_pairs(),
                self.actors_spec().len() == old(self).actors_spec().len(),
                self.now_spec() >= old(self).now_spec(),
                old(self).deliveries().is_prefix_of(self.deliveries()),
                old(self).routed().is_prefix_of(self.routed()),
                self.routed().len() == old(self).routed().len() + steps,
                forall|p: int|
                    old(self).routed().len() <= p < self.routed().len() && (#[trigger] self.routed(
                    )[p]).channel is Stop ==> p == self.routed().len() - 1,
                forall|p: int|
                    old(self).routed().len() <= p < self.routed().len() && (#[trigger] self.routed(
                    )[p]).channel is Stop ==> self.stop_spec(),
                self.stop_spec() ==> old(self).stop_spec() || (self.routed().len() > old(
                    self,
                ).routed().len() && self.routed().last().channel is Stop),
                old(self).stop_spec() ==> self.same_state(old(self)) && self.routed() == old(
                    self,
                ).routed(),
                !old(self).stop_spec() && old(self).queue_spec().len() == 0 && old(
                    self,
                ).timeline_spec().events().len() == 0 ==> self.same_state(old(self))
                    && self.routed() == old(self).routed() && steps == 0,
                steps == 0 ==> self.same_state(old(self)) && self.routed() == old(self).routed(),
                !old(self).stop_spec() && old(self).queue_spec().len() > 0 && self.routed().len()
                    > old(self).routed().len() ==> self.routed()[old(self).routed().len() as int]
                    == old(self).queue_spec()[0],
                !old(self).stop_spec() && old(self).queue_spec().len() == 0 && old(
                    self,
                ).timeline_spec().events().len() > 0 && self.routed().len() > old(
                    self,
                ).routed().len() ==> {
                    let ev = old(self).timeline_spec().events()[earliest_index(
                        old(self).timeline_spec().events(),
                    )];
                    let w = self.routed()[old(self).routed().len() as int];
                    &&& w.from == ev.envelope.from
                    &&& w.channel is TimelineEvent
                    &&& w.time == Some(ev.time)
                    &&& payload_carried(ev.envelope.message, w.message)
                },
            decreases max_steps - steps,
        {
            if self.stop_requested {
                return Ok(RunOutcome::Stopped);
            }
            if steps >= max_steps {
                return Ok(RunOutcome::OutOfSteps);
            }
            steps = steps + 1;
            let ghost pre_log = self.deliveries();
            let ghost pre_routed = self.routed();
            let ghost pre_stop = self.stop_spec();
            match self.route_next() {
                Err(e) => {
                    proof {
                        lemma_prefix_refl(pre_log);
                        lemma_prefix_trans(old(self).deliveries(), pre_log, self.deliveries());
                        lemma_prefix_push(old(self).routed(), pre_routed, self.routed().last());
                        assert(self.routed() == pre_routed.push(self.routed().last()));
                    }
                    return Err(e);
                },
                Ok(true) => {
                    proof {
                        lemma_prefix_trans(old(self).deliveries(), pre_log, self.deliveries());
                        lemma_prefix_push(old(self).routed(), pre_routed, self.routed().last());
                        assert(self.routed() == pre_routed.push(self.routed().last()));
                        assert forall|p: int|
                            old(self).routed().len() <= p < pre_routed.len() implies !((
                        #[trigger] pre_routed[p]).channel is Stop) by {}
                    }
                },
                Ok(false) => {
                    if !self.advance_timeline() {
                        return Ok(RunOutcome::Exhausted);
                    }
                    proof {
                        lemma_prefix_refl(pre_log);
                        lemma_prefix_trans(old(self).deliveries(), pre_log, self.deliveries());
                        lemma_prefix_push(old(self).routed(), pre_routed, self.routed().last());
                        assert(self.routed() == pre_routed.push(self.routed().last()));
                        assert(!(self.routed().last().channel is Stop));
                        assert forall|p: int|
                            old(self).routed().len() <= p < pre_routed.len() implies !((
                        #[trigger] pre_routed[p]).channel is Stop) by {}
                    }
                },
            }
        }
    }
}

/// When entry `i` is the first whose key is `c`, the lookup returns its
/// list.
proof fn lemma_lookup_at<Topic: BoundedTopic>(
    s: Seq<(Channel<Topic>, Seq<ActorHandle>)>,
    c: Channel<Topic>,
    i: int,
)
    requires
        0 <= i < s.len(),
        s[i].0 == c,
        forall|k: int| 0 <= k < i ==> (#[trigger] s[k]).0 != c,
    ensures
        lookup_subs(s, c) == s[i].1,
    decreases s.len(),
{
    if i > 0 {
        let s2 = s.drop_first();
        assert forall|k: int| 0 <= k < i - 1 implies (#[trigger] s2[k]).0 != c by {
            assert(s2[k] == s[k + 1]);
        }
        lemma_lookup_at(s2, c, i - 1);
    }
}

/// When no entry's key is `c`, the lookup returns the empty list.
proof fn lemma_lookup_absent<Topic: BoundedTopic>(
    s: Seq<(Channel<Topic>, Seq<ActorHandle>)>,
    c: Channel<Topic>,
)
    requires
        forall|k: int| 0 <= k < s.len() ==> (#[trigger] s[k]).0 != c,
    ensures
        lookup_subs(s, c) == Seq::<ActorHandle>::empty(),
    decreases s.len(),
{
    if s.len() > 0 {
        let s2 = s.drop_first();
        assert forall|k: int| 0 <= k < s2.len() implies (#[trigger] s2[k]).0 != c by {
            assert(s2[k] == s[k + 1]);
        }
        lemma_lookup_absent(s2, c);
    }
}

/// How replacing entry `k` — keeping its key — changes a lookup: the lookup
/// of that key (when `k` is its first occurrence) now returns the new list;
/// every other lookup is untouched.
proof fn lemma_lookup_update<Topic: BoundedTopic>(
    s: Seq<(Channel<Topic>, Seq<ActorHandle>)>,
    k: int,
    p: (Channel<Topic>, Seq<ActorHandle>),
    c: Channel<Topic>,
)
    requires
        0 <= k < s.len(),
        p.0 == s[k].0,
        forall|a: int| 0 <= a < k ==> (#[trigger] s[a]).0 != s[k].0,
    ensures
        c == s[k].0 ==> lookup_subs(s.update(k, p), c) == p.1,
        c != s[k].0 ==> lookup_subs(s.update(k, p), c) == lookup_subs(s, c),
    decreases s.len(),
{
    let su = s.update(k, p);
    if k == 0 {
        if c == s[0].0 {
        } else {
            assert(su.drop_first() =~= s.drop_first());
        }
    } else {
        assert(su[0] == s[0]);
        if c == s[0].0 {
        } else {
            let s2 = s.drop_first();
            assert(su.drop_first() =~= s2.update(k - 1, p));
            assert(s2[k - 1] == s[k]);
            assert forall|a: int| 0 <= a < k - 1 implies (#[trigger] s2[a]).0 != s2[k - 1].0 by {
                assert(s2[a] == s[a + 1]);
            }
            lemma_lookup_update(s2, k - 1, p, c);
        }
    }
}

/// How appending an entry changes a lookup: a key that already had an entry
/// — or a different key — is untouched; a fresh key now returns the new
/// list.
proof fn lemma_lookup_push<Topic: BoundedTopic>(
    s: Seq<(Channel<Topic>, Seq<ActorHandle>)>,
    p: (Channel<Topic>, Seq<ActorHandle>),
    c: Channel<Topic>,
)
    ensures
        c == p.0 && (forall|i: int| 0 <= i < s.len() ==> (#[trigger] s[i]).0 != c)
            ==> lookup_subs(s.push(p), c) == p.1,
        c != p.0 || (exists|i: int| 0 <= i < s.len() && (#[trigger] s[i]).0 == c)
            ==> lookup_subs(s.push(p), c) == lookup_subs(s, c),
    decreases s.len(),
{
    let sp = s.push(p);
    if s.len() == 0 {
        assert(sp[0] == p);
        if c != p.0 {
            assert(sp.drop_first() =~= Seq::<(Channel<Topic>, Seq<ActorHandle>)>::empty());
            assert(lookup_subs(sp, c) == lookup_subs(sp.drop_first(), c));
        }
    } else {
        assert(sp[0] == s[0]);
        if c == s[0].0 {
            assert(lookup_subs(sp, c) == sp[0].1);
            assert(lookup_subs(s, c) == s[0].1);
            assert(exists|i: int| 0 <= i < s.len() && (#[trigger] s[i]).0 == c) by {
                assert((#[trigger] s[0]).0 == c);
            }
        } else {
            let s2 = s.drop_first();
            assert(sp.drop_first() =~= s2.push(p));
            lemma_lookup_push(s2, p, c);
            assert(lookup_subs(sp, c) == lookup_subs(s2.push(p), c));
            assert(lookup_subs(s, c) == lookup_subs(s2, c));
            if exists|i: int| 0 <= i < s.len() && (#[trigger] s[i]).0 == c {
                let i = choose|i: int| 0 <= i < s.len() && (#[trigger] s[i]).0 == c;
                assert(s2[i - 1] == s[i]);
                assert(exists|n: int| 0 <= n < s2.len() && (#[trigger] s2[n]).0 == c);
            } else {
                assert forall|n: int| 0 <= n < s2.len() implies (#[trigger] s2[n]).0 != c by {
                    assert(s2[n] == s[n + 1]);
                    assert((#[trigger] s[n + 1]).0 != c);
                }
            }
        }
    }
}

/// Every sequence is a prefix of itself.
proof fn lemma_prefix_refl<A>(a: Seq<A>)
    ensures
        a.is_prefix_of(a),
{
    assert(a.subrange(0, a.len() as int) =~= a);
}

/// A prefix of a prefix is a prefix of the whole.
proof fn lemma_prefix_trans<A>(a: Seq<A>, b: Seq<A>, c: Seq<A>)
    requires
        a.is_prefix_of(b),
        b.is_prefix_of(c),
    ensures
        a.is_prefix_of(c),
{
    assert forall|i: int| 0 <= i < a.len() implies a[i] == c.subrange(0, a.len() as int)[i] by {
        assert(a[i] == b.subrange(0, a.len() as int)[i]);
        assert(b[i] == c.subrange(0, b.len() as int)[i]);
    }
    assert(a =~= c.subrange(0, a.len() as int));
}

/// A prefix of a sequence is a prefix of that sequence extended by one.
proof fn lemma_prefix_push<A>(a: Seq<A>, b: Seq<A>, x: A)
    requires
        a.is_prefix_of(b),
    ensures
        a.is_prefix_of(b.push(x)),
{
    assert(b.push(x).subrange(0, a.len() as int) =~= b.subrange(0, a.len() as int));
}

} // verus!
