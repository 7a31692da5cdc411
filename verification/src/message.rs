//! The unit of communication. A payload (`Message`) travels in an
//! [`Envelope`], which names the sender, the [`Channel`] it is addressed to,
//! and optionally the logical instant it belongs to. Envelopes are immutable
//! and shared: several subscribers may hold the same delivery at once, so
//! they are passed around behind a reference-counted pointer
//! ([`RcEnvelope`]).

use vstd::prelude::*;

use crate::actor::ActorHandle;
use crate::timeline::Time;
use vstd::std_specs::convert::IntoSpec;

verus! {

/// A shared, read-only envelope. Every subscriber of a dispatch sees the very
/// same envelope; nothing mutates an envelope after construction.
pub type RcEnvelope<Message, Topic> = std::rc::Rc<Envelope<Message, Topic>>;

/// The bounds every topic type must satisfy. Topics are small, copyable
/// values compared as dispatch-table keys.
pub trait BoundedTopic: Copy + PartialEq + Eq {

}

/// Any type with the right bounds can serve as a topic.
impl<T> BoundedTopic for T where T: Copy + PartialEq + Eq {

}

/// A topic type whose `==` agrees with structural equality, as derived
/// equality on a plain enum or integer does. The dispatch table is keyed by
/// channels, so the router's contracts ask for this of the topic type.
pub open spec fn topic_eq_exact<Topic: BoundedTopic>() -> bool {
    vstd::laws_eq::obeys_concrete_eq::<Topic>()
}

/// Hands out one more shared reference to an envelope.
///
/// Relies on std's `Rc::clone`: the returned pointer shares the same
/// allocation as the argument, so it carries the very same value.
#[verifier::external_body]
pub(crate) fn dup_rc<T>(v: &std::rc::Rc<T>) -> (r: std::rc::Rc<T>)
    ensures
        r == v,
{
    std::rc::Rc::clone(v)
}

/// How a re-wrapped envelope's payload relates to the scheduled one: the
/// clone of the original payload, `None` staying `None`. With a faithful
/// `Clone` — one whose result equals its argument, as a derived clone's
/// does — this pins the payload exactly.
pub open spec fn payload_carried<Message: Clone>(
    src: Option<Message>,
    dst: Option<Message>,
) -> bool {
    match (src, dst) {
        (Option::None, Option::None) => true,
        (Option::Some(a), Option::Some(b)) => cloned::<Message>(a, b),
        _ => false,
    }
}

/// The addressing key of an envelope: a fixed set of system-reserved kinds,
/// plus an application-extensible `Topic` kind.
#[derive(Copy, Clone, Debug, Hash)]
pub enum Channel<Topic> where Topic: BoundedTopic {
    /// Request an early exit from the run loop.
    Stop,
    /// Request a diagnostic pause.
    Debug,
    /// Marks a delivery that originated from the timeline.
    TimelineEvent,
    /// Request to the router to schedule an envelope for future delivery.
    ScheduleEvent,
    /// Request for (and answer with) the current logical time.
    Time,
    /// An application-defined domain channel.
    Topic(Topic),
    /// Direct addressing of a single participant.
    Actor(ActorHandle),
    /// A catch-all channel.
    General,
}

impl<Topic: BoundedTopic> PartialEq for Channel<Topic> {
    fn eq(&self, other: &Self) -> bool {
        proof {
            reveal(vstd::laws_eq::obeys_concrete_eq);
        }
        match (self, other) {
            (Channel::Stop, Channel::Stop) => true,
            (Channel::Debug, Channel::Debug) => true,
            (Channel::TimelineEvent, Channel::TimelineEvent) => true,
            (Channel::ScheduleEvent, Channel::ScheduleEvent) => true,
            (Channel::Time, Channel::Time) => true,
            (Channel::Topic(a), Channel::Topic(b)) => *a == *b,
            (Channel::Actor(a), Channel::Actor(b)) => *a == *b,
            (Channel::General, Channel::General) => true,
            _ => false,
        }
    }
}

impl<Topic: BoundedTopic> Eq for Channel<Topic> {

}

/// When the topic type's `==` is structural, so is the channel's.
impl<Topic: BoundedTopic> vstd::std_specs::cmp::PartialEqSpecImpl for Channel<Topic> {
    open spec fn obeys_eq_spec() -> bool {
        topic_eq_exact::<Topic>()
    }

    open spec fn eq_spec(&self, other: &Self) -> bool {
        *self == *other
    }
}

impl<Topic: BoundedTopic> Channel<Topic> {
    /// Rewrites any channel into the `Topic` kind carrying the given value.
    pub fn with_topic<T: Into<Topic>>(self, topic: T) -> (r: Self)
        ensures
            r is Topic,
            T::obeys_into_spec() ==> r == Channel::<Topic>::Topic(topic.into_spec()),
    {
        Channel::Topic(topic.into())
    }
}

/// The immutable unit of communication. `message == None` conventionally
/// marks a query with no content; `time == None` marks a synchronous,
/// non-temporal delivery, while `time == Some(t)` ties the delivery to the
/// logical instant `t`.
#[derive(Debug)]
pub struct Envelope<Message, Topic> where Message: Clone, Topic: BoundedTopic {
    /// The handle of the sending participant.
    pub from: ActorHandle,
    /// The channel this envelope is addressed to.
    pub channel: Channel<Topic>,
    /// The payload, if the envelope carries one.
    pub message: Option<Message>,
    /// The logical instant this envelope is tied to, if any.
    pub time: Option<Time>,
}

} // verus!
