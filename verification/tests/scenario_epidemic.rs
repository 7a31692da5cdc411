use std::cell::RefCell;
use std::rc::Rc;

use actor_model::actor::{Actor, ActorHandle};
use actor_model::message::{Channel, Envelope, RcEnvelope};
use actor_model::router::{Router, RunOutcome};

#[derive(Copy, Clone, Debug, PartialEq, Eq, Hash)]
enum Status {
    Susceptible,
    Infected,
    Recovered,
}

#[derive(Copy, Clone, Debug, PartialEq, Eq, Hash)]
enum Msg {
    PersonStatus(u32, Status),
}

#[derive(Copy, Clone, Debug, PartialEq, Eq, Hash)]
enum Tp {
    PersonStatus,
}

type Env = RcEnvelope<Msg, Tp>;

const POPULATION: u32 = 10;
const RECOVERY_DELAY: u64 = 5;

fn person_status(from: ActorHandle, id: u32, status: Status, time: Option<u64>) -> Env {
    Rc::new(Envelope {
        from,
        channel: Channel::Topic(Tp::PersonStatus),
        message: Some(Msg::PersonStatus(id, status)),
        time,
    })
}

fn schedule(from: ActorHandle, id: u32, status: Status, time: u64) -> Env {
    Rc::new(Envelope {
        from,
        channel: Channel::ScheduleEvent,
        message: Some(Msg::PersonStatus(id, status)),
        time: Some(time),
    })
}

/// Applies the scheduled transitions as they fire, announces each new
/// status, logs the instant of every transition it observes, and requests a
/// stop the moment the whole population has recovered.
struct Population {
    handle: ActorHandle,
    people: Vec<Status>,
    times_seen: Rc<RefCell<Vec<u64>>>,
}

impl Actor<Msg, Tp> for Population {
    fn receive_message(&mut self, envelope: Env) -> Vec<Env> {
        match (envelope.channel, envelope.message, envelope.time) {
            (Channel::TimelineEvent, Some(Msg::PersonStatus(id, status)), Some(t)) => {
                self.people[id as usize] = status;
                self.times_seen.borrow_mut().push(t);
                let mut out = vec![person_status(self.handle, id, status, Some(t))];
                if self.people.iter().all(|s| *s == Status::Recovered) {
                    out.push(Rc::new(Envelope {
                        from: self.handle,
                        channel: Channel::Stop,
                        message: None,
                        time: None,
                    }));
                }
                out
            }
            _ => Vec::new(),
        }
    }

    fn register(&mut self, handle: ActorHandle) -> (Vec<Channel<Tp>>, Vec<Env>) {
        self.handle = handle;
        (vec![Channel::TimelineEvent], Vec::new())
    }
}

/// Seeds the outbreak: schedules one infection per participant, one tick
/// apart, all through the timeline.
struct TransmissionManager {
    handle: ActorHandle,
}

impl Actor<Msg, Tp> for TransmissionManager {
    fn receive_message(&mut self, _envelope: Env) -> Vec<Env> {
        Vec::new()
    }

    fn register(&mut self, handle: ActorHandle) -> (Vec<Channel<Tp>>, Vec<Env>) {
        self.handle = handle;
        let outbox = (0..POPULATION)
            .map(|id| schedule(handle, id, Status::Infected, u64::from(id) + 1))
            .collect();
        (Vec::new(), outbox)
    }
}

/// Watches the status announcements and schedules each infected person's
/// recovery a fixed delay after the infection.
struct InfectionManager {
    handle: ActorHandle,
}

impl Actor<Msg, Tp> for InfectionManager {
    fn receive_message(&mut self, envelope: Env) -> Vec<Env> {
        match (envelope.channel, envelope.message, envelope.time) {
            (Channel::Topic(Tp::PersonStatus), Some(Msg::PersonStatus(id, Status::Infected)), Some(t)) => {
                vec![schedule(self.handle, id, Status::Recovered, t + RECOVERY_DELAY)]
            }
            _ => Vec::new(),
        }
    }

    fn register(&mut self, handle: ActorHandle) -> (Vec<Channel<Tp>>, Vec<Env>) {
        self.handle = handle;
        (vec![Channel::Topic(Tp::PersonStatus)], Vec::new())
    }
}

#[test]
fn run_stops_exactly_when_everyone_has_recovered() {
    let times_seen = Rc::new(RefCell::new(Vec::new()));
    let mut router: Router<Msg, Tp> = Router::new();
    router.add_actor(Box::new(Population {
        handle: 0,
        people: vec![Status::Susceptible; POPULATION as usize],
        times_seen: times_seen.clone(),
    }));
    router.add_actor(Box::new(TransmissionManager { handle: 0 }));
    router.add_actor(Box::new(InfectionManager { handle: 0 }));

    // the run ends through the Stop channel, not by exhaustion
    assert_eq!(router.run(100_000), Ok(RunOutcome::Stopped));

    let times = times_seen.borrow().clone();
    // one infection and one recovery fired per participant
    assert_eq!(times.len(), 2 * POPULATION as usize);
    // logical time never decreased across the whole run
    for w in times.windows(2) {
        assert!(w[0] <= w[1]);
    }
    // the last transition was the final recovery
    assert_eq!(*times.last().unwrap(), u64::from(POPULATION) + RECOVERY_DELAY);
}
