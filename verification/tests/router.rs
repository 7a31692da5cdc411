use std::cell::RefCell;
use std::rc::Rc;

use actor_model::actor::{Actor, ActorHandle};
use actor_model::message::{Channel, Envelope, RcEnvelope};
use actor_model::router::{Router, RouterError, RunOutcome, TIMELINE_HANDLE};

type Msg = u32;
type Tp = u8;
type Log = Rc<RefCell<Vec<(ActorHandle, Channel<Tp>, Option<Msg>, Option<u64>)>>>;

fn env(from: ActorHandle, channel: Channel<Tp>, message: Option<Msg>, time: Option<u64>) -> RcEnvelope<Msg, Tp> {
    Rc::new(Envelope { from, channel, message, time })
}

/// A test participant: subscribes to the given channels, seeds the queue
/// with the given envelopes, records everything it receives in a shared
/// log, and answers at most once per configured trigger topic.
struct Recorder {
    handle: ActorHandle,
    subs: Vec<Channel<Tp>>,
    outbox: Vec<RcEnvelope<Msg, Tp>>,
    replies: Vec<(Tp, RcEnvelope<Msg, Tp>)>,
    log: Log,
}

impl Recorder {
    fn new(subs: Vec<Channel<Tp>>, outbox: Vec<RcEnvelope<Msg, Tp>>, log: Log) -> Recorder {
        Recorder { handle: 0, subs, outbox, replies: Vec::new(), log }
    }
}

impl Actor<Msg, Tp> for Recorder {
    fn receive_message(&mut self, envelope: RcEnvelope<Msg, Tp>) -> Vec<RcEnvelope<Msg, Tp>> {
        self.log
            .borrow_mut()
            .push((self.handle, envelope.channel, envelope.message, envelope.time));
        if let Channel::Topic(t) = envelope.channel {
            if let Some(pos) = self.replies.iter().position(|(trigger, _)| *trigger == t) {
                let (_, reply) = self.replies.remove(pos);
                return vec![reply];
            }
        }
        Vec::new()
    }

    fn register(&mut self, handle: ActorHandle) -> (Vec<Channel<Tp>>, Vec<RcEnvelope<Msg, Tp>>) {
        self.handle = handle;
        (self.subs.clone(), std::mem::take(&mut self.outbox))
    }
}

fn fresh_log() -> Log {
    Rc::new(RefCell::new(Vec::new()))
}

#[test]
fn it_works() {
    let mut router = Router::<(), ()>::new();
    router.run(16).unwrap();
}

#[test]
fn handles_are_assigned_in_registration_order() {
    let log = fresh_log();
    let mut router: Router<Msg, Tp> = Router::new();
    for expected in 0u32..3 {
        let actor = Recorder::new(vec![Channel::Topic(1)], Vec::new(), log.clone());
        let handle = router.add_actor(Box::new(actor));
        assert_eq!(handle, expected);
    }
    // each actor stamped its own stored handle into the log on delivery,
    // and same-channel subscribers are reached in registration order
    router.route(env(9, Channel::Topic(1), Some(7), None)).unwrap();
    let seen: Vec<ActorHandle> = log.borrow().iter().map(|e| e.0).collect();
    assert_eq!(seen, vec![0, 1, 2]);
}

#[test]
fn time_query_gets_a_reply_with_the_current_time() {
    let log = fresh_log();
    let mut router: Router<Msg, Tp> = Router::new();
    router.add_actor(Box::new(Recorder::new(vec![Channel::Time], Vec::new(), log.clone())));
    router.route(env(0, Channel::Time, None, None)).unwrap();
    assert_eq!(router.run(16), Ok(RunOutcome::Exhausted));
    let entries = log.borrow().clone();
    // the query itself reaches the subscriber, then the synthesized reply
    assert_eq!(entries.len(), 2);
    assert_eq!(entries[0], (0, Channel::Time, None, None));
    assert_eq!(entries[1], (0, Channel::Time, None, Some(0)));
}

#[test]
fn stop_halts_before_any_further_envelope() {
    let log = fresh_log();
    let mut router: Router<Msg, Tp> = Router::new();
    let outbox = vec![
        env(0, Channel::Topic(1), Some(1), None),
        env(0, Channel::Stop, None, None),
        env(0, Channel::Topic(1), Some(2), None),
    ];
    router.add_actor(Box::new(Recorder::new(vec![Channel::Topic(1)], outbox, log.clone())));
    assert_eq!(router.run(100), Ok(RunOutcome::Stopped));
    let entries = log.borrow().clone();
    assert_eq!(entries, vec![(0, Channel::Topic(1), Some(1), None)]);
}

#[test]
fn immediate_queue_drains_fully_before_time_advances() {
    let log = fresh_log();
    let mut router: Router<Msg, Tp> = Router::new();
    let outbox = vec![
        env(0, Channel::ScheduleEvent, Some(100), Some(5)),
        env(0, Channel::Topic(1), Some(1), None),
    ];
    let mut actor = Recorder::new(
        vec![Channel::Topic(1), Channel::Topic(2), Channel::TimelineEvent],
        outbox,
        log.clone(),
    );
    // a synchronous cascade: the reply to topic 1 lands on topic 2
    actor.replies.push((1, env(0, Channel::Topic(2), Some(2), None)));
    router.add_actor(Box::new(actor));
    assert_eq!(router.run(100), Ok(RunOutcome::Exhausted));
    let entries = log.borrow().clone();
    // the cascaded reply is seen before the scheduled event fires
    assert_eq!(
        entries,
        vec![
            (0, Channel::Topic(1), Some(1), None),
            (0, Channel::Topic(2), Some(2), None),
            (0, Channel::TimelineEvent, Some(100), Some(5)),
        ]
    );
}

#[test]
fn schedule_without_a_time_is_refused() {
    let mut router: Router<Msg, Tp> = Router::new();
    let r = router.route(env(0, Channel::ScheduleEvent, Some(3), None));
    assert_eq!(r, Err(RouterError::MissingScheduleTime));
}

#[test]
fn scheduling_into_the_past_is_refused() {
    let mut router: Router<Msg, Tp> = Router::new();
    router.route(env(0, Channel::ScheduleEvent, Some(1), Some(5))).unwrap();
    assert_eq!(router.run(16), Ok(RunOutcome::Exhausted));
    let r = router.route(env(0, Channel::ScheduleEvent, Some(2), Some(3)));
    assert_eq!(r, Err(RouterError::ScheduledInPast));
}

#[test]
fn run_halts_on_the_first_refused_envelope() {
    let log = fresh_log();
    let mut router: Router<Msg, Tp> = Router::new();
    let outbox = vec![env(0, Channel::ScheduleEvent, Some(3), None)];
    router.add_actor(Box::new(Recorder::new(Vec::new(), outbox, log.clone())));
    assert_eq!(router.run(16), Err(RouterError::MissingScheduleTime));
}

#[test]
fn unsubscribed_channel_is_a_silent_no_op() {
    let log = fresh_log();
    let mut router: Router<Msg, Tp> = Router::new();
    router.add_actor(Box::new(Recorder::new(vec![Channel::Topic(1)], Vec::new(), log.clone())));
    router.route(env(0, Channel::Topic(9), Some(4), None)).unwrap();
    assert_eq!(router.run(16), Ok(RunOutcome::Exhausted));
    assert!(log.borrow().is_empty());
}

#[test]
fn silent_route_returns_responses_without_enqueueing() {
    let log = fresh_log();
    let mut router: Router<Msg, Tp> = Router::new();
    let mut actor = Recorder::new(vec![Channel::Topic(1)], Vec::new(), log.clone());
    actor.replies.push((1, env(0, Channel::Topic(2), Some(2), None)));
    router.add_actor(Box::new(actor));
    let responses = router.silent_route(env(9, Channel::Topic(1), Some(1), None)).unwrap();
    assert_eq!(responses.len(), 1);
    assert_eq!(responses[0].channel, Channel::Topic(2));
    assert_eq!(responses[0].message, Some(2));
    // the response was handed back, not enqueued: nothing further is delivered
    assert_eq!(router.run(16), Ok(RunOutcome::Exhausted));
    assert_eq!(log.borrow().len(), 1);
}

#[test]
fn silent_route_consumes_system_envelopes() {
    let mut router: Router<Msg, Tp> = Router::new();
    let responses = router.silent_route(env(0, Channel::Stop, None, None)).unwrap();
    assert!(responses.is_empty());
    assert_eq!(router.run(16), Ok(RunOutcome::Stopped));
}

#[test]
fn out_of_steps_when_the_budget_runs_out() {
    let log = fresh_log();
    let mut router: Router<Msg, Tp> = Router::new();
    let outbox = vec![
        env(0, Channel::Topic(1), Some(1), None),
        env(0, Channel::Topic(1), Some(2), None),
    ];
    router.add_actor(Box::new(Recorder::new(vec![Channel::Topic(1)], outbox, log.clone())));
    assert_eq!(router.run(1), Ok(RunOutcome::OutOfSteps));
    assert_eq!(log.borrow().len(), 1);
}

#[test]
fn schedule_requests_still_reach_their_subscribers() {
    let log = fresh_log();
    let mut router: Router<Msg, Tp> = Router::new();
    let subs = vec![Channel::ScheduleEvent, Channel::TimelineEvent];
    router.add_actor(Box::new(Recorder::new(subs, Vec::new(), log.clone())));
    router.route(env(0, Channel::ScheduleEvent, Some(42), Some(7))).unwrap();
    // the schedule request itself is dispatched like any other envelope
    assert_eq!(log.borrow().clone(), vec![(0, Channel::ScheduleEvent, Some(42), Some(7))]);
    // and the scheduled event fires later, wrapped as a timeline event
    assert_eq!(router.run(100), Ok(RunOutcome::Exhausted));
    assert_eq!(log.borrow().last().copied(), Some((0, Channel::TimelineEvent, Some(42), Some(7))));
    assert_eq!(log.borrow().len(), 2);
}

#[test]
fn duplicate_subscriptions_deliver_twice() {
    let log = fresh_log();
    let mut router: Router<Msg, Tp> = Router::new();
    let actor = Recorder::new(vec![Channel::Topic(1), Channel::Topic(1)], Vec::new(), log.clone());
    router.add_actor(Box::new(actor));
    // no duplicate detection: the subscriber list simply grew twice
    router.route(env(5, Channel::Topic(1), Some(3), None)).unwrap();
    assert_eq!(log.borrow().len(), 2);
}

#[test]
fn actors_can_be_addressed_directly() {
    let log = fresh_log();
    let mut router: Router<Msg, Tp> = Router::new();
    router.add_actor(Box::new(Recorder::new(vec![Channel::Actor(0)], Vec::new(), log.clone())));
    router.add_actor(Box::new(Recorder::new(vec![Channel::Actor(1)], Vec::new(), log.clone())));
    router.route(env(9, Channel::Actor(1), Some(8), None)).unwrap();
    let entries = log.borrow().clone();
    assert_eq!(entries, vec![(1, Channel::Actor(1), Some(8), None)]);
}

#[test]
fn the_reply_sender_is_the_timeline_handle() {
    let log = fresh_log();
    let mut router: Router<Msg, Tp> = Router::new();
    router.add_actor(Box::new(Recorder::new(vec![Channel::Time], Vec::new(), log.clone())));
    router.route(env(7, Channel::Time, None, None)).unwrap();
    router.run(16).unwrap();
    // the synthesized reply names the router/timeline itself as its sender
    assert_eq!(TIMELINE_HANDLE, 0);
}
