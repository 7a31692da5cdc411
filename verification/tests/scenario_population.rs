use std::rc::Rc;

use actor_model::actor::{Actor, ActorHandle};
use actor_model::message::{Channel, Envelope, RcEnvelope};
use actor_model::router::Router;

#[derive(Copy, Clone, Debug, PartialEq, Eq, Hash)]
enum Status {
    Susceptible,
    Infected,
    Recovered,
}

#[derive(Copy, Clone, Debug, PartialEq, Eq, Hash)]
enum Msg {
    PersonStatus(u32, Status),
    RequestPersonStatus(u32),
    PopulationReport { susceptible: u32, infected: u32, recovered: u32 },
}

#[derive(Copy, Clone, Debug, PartialEq, Eq, Hash)]
enum Tp {
    PersonStatus,
    ChangePersonStatus,
    RequestPersonStatus,
    PopulationReport,
}

type Env = RcEnvelope<Msg, Tp>;

/// Tracks the status of every participant; the only registered handler in
/// this scenario. A status request is answered with the person's status, a
/// status change with a population summary.
struct Population {
    handle: ActorHandle,
    people: Vec<Status>,
}

impl Population {
    fn new(count: u32) -> Population {
        Population { handle: 0, people: vec![Status::Susceptible; count as usize] }
    }

    fn counts(&self) -> (u32, u32, u32) {
        let mut c = (0, 0, 0);
        for s in &self.people {
            match s {
                Status::Susceptible => c.0 += 1,
                Status::Infected => c.1 += 1,
                Status::Recovered => c.2 += 1,
            }
        }
        c
    }

    fn report(&self) -> Env {
        let (susceptible, infected, recovered) = self.counts();
        Rc::new(Envelope {
            from: self.handle,
            channel: Channel::Topic(Tp::PopulationReport),
            message: Some(Msg::PopulationReport { susceptible, infected, recovered }),
            time: None,
        })
    }
}

impl Actor<Msg, Tp> for Population {
    fn receive_message(&mut self, envelope: Env) -> Vec<Env> {
        match (envelope.channel, envelope.message) {
            (Channel::Topic(Tp::RequestPersonStatus), Some(Msg::RequestPersonStatus(id))) => {
                vec![Rc::new(Envelope {
                    from: self.handle,
                    channel: Channel::Topic(Tp::PersonStatus),
                    message: Some(Msg::PersonStatus(id, self.people[id as usize])),
                    time: None,
                })]
            }
            (Channel::Topic(Tp::ChangePersonStatus), Some(Msg::PersonStatus(id, status)))
            | (Channel::TimelineEvent, Some(Msg::PersonStatus(id, status))) => {
                self.people[id as usize] = status;
                vec![self.report()]
            }
            (Channel::Topic(Tp::PopulationReport), None) => vec![self.report()],
            _ => Vec::new(),
        }
    }

    fn register(&mut self, handle: ActorHandle) -> (Vec<Channel<Tp>>, Vec<Env>) {
        self.handle = handle;
        let subs = vec![
            Channel::Topic(Tp::ChangePersonStatus),
            Channel::Topic(Tp::RequestPersonStatus),
            Channel::Topic(Tp::PopulationReport),
            Channel::TimelineEvent,
        ];
        (subs, Vec::new())
    }
}

fn status_request(id: u32) -> Env {
    Rc::new(Envelope {
        from: 0,
        channel: Channel::Topic(Tp::RequestPersonStatus),
        message: Some(Msg::RequestPersonStatus(id)),
        time: None,
    })
}

#[test]
fn population_of_ten_answers_status_and_change_requests() {
    let mut router: Router<Msg, Tp> = Router::new();
    router.add_actor(Box::new(Population::new(10)));

    let response = router.silent_route(status_request(0)).unwrap();
    assert_eq!(response.len(), 1);
    assert_eq!(response[0].message, Some(Msg::PersonStatus(0, Status::Susceptible)));

    let change = Rc::new(Envelope {
        from: 0,
        channel: Channel::Topic(Tp::ChangePersonStatus),
        message: Some(Msg::PersonStatus(0, Status::Infected)),
        time: Some(1),
    });
    let response = router.silent_route(change).unwrap();
    assert_eq!(response.len(), 1);
    assert_eq!(
        response[0].message,
        Some(Msg::PopulationReport { susceptible: 9, infected: 1, recovered: 0 })
    );

    let response = router.silent_route(status_request(0)).unwrap();
    assert_eq!(response.len(), 1);
    assert_eq!(response[0].message, Some(Msg::PersonStatus(0, Status::Infected)));
}

#[test]
fn population_report_request_counts_everyone() {
    let mut router: Router<Msg, Tp> = Router::new();
    router.add_actor(Box::new(Population::new(10)));
    let query = Rc::new(Envelope {
        from: 0,
        channel: Channel::Topic(Tp::PopulationReport),
        message: None,
        time: None,
    });
    let response = router.silent_route(query).unwrap();
    assert_eq!(response.len(), 1);
    assert_eq!(
        response[0].message,
        Some(Msg::PopulationReport { susceptible: 10, infected: 0, recovered: 0 })
    );
}
