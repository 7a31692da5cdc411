//! The participant contract. An `Actor` is an entity that reacts to
//! envelopes and may emit new ones. The router owns every actor, assigns it
//! a dense numeric handle at registration, and is the only caller of these
//! two operations.

use vstd::prelude::*;

use crate::message::{BoundedTopic, Channel, RcEnvelope};

verus! {

/// The identity of a registered participant: assigned densely from zero, in
/// registration order, and never changed afterwards. Doubles as the index
/// into the router's actor list.
pub type ActorHandle = u32;

/// What a participant implements to take part in dispatch. The two
/// operations promise nothing to the router: the kernel's own contracts hold
/// for every possible behaviour of the actors it drives.
pub trait Actor<Message, Topic> where Message: Clone, Topic: BoundedTopic {
    /// A matching envelope is delivered to this actor, which may respond
    /// with envelopes of its own; the router appends them to the back of
    /// its immediate queue.
    fn receive_message(&mut self, envelope: RcEnvelope<Message, Topic>) -> Vec<
        RcEnvelope<Message, Topic>,
    >;

    /// Called exactly once, when the router adds this actor, with the handle
    /// the router has assigned. Implementations should remember their own
    /// handle, to stamp outgoing envelopes. Returns the channels this actor
    /// subscribes to and any initial envelopes to seed the immediate queue.
    fn register(&mut self, handle: ActorHandle) -> (Vec<Channel<Topic>>, Vec<
        RcEnvelope<Message, Topic>,
    >);
}

} // verus!
