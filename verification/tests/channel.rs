use actor_model::message::Channel;

#[derive(Copy, Clone, Debug, PartialEq, Eq, Hash)]
enum Weather {
    Rain,
    Sun,
}

#[derive(Copy, Clone, Debug, PartialEq, Eq, Hash)]
struct Humidity(u8);

impl From<Humidity> for Weather {
    fn from(h: Humidity) -> Weather {
        if h.0 > 50 {
            Weather::Rain
        } else {
            Weather::Sun
        }
    }
}

#[test]
fn with_topic_builds_a_topic_channel() {
    let c: Channel<Weather> = Channel::General.with_topic(Weather::Rain);
    assert_eq!(c, Channel::Topic(Weather::Rain));
    let c2: Channel<Weather> = Channel::Stop.with_topic(Humidity(80));
    assert_eq!(c2, Channel::Topic(Weather::Rain));
    let c3: Channel<Weather> = Channel::Topic(Weather::Rain).with_topic(Humidity(10));
    assert_eq!(c3, Channel::Topic(Weather::Sun));
}

#[test]
fn channel_equality_is_by_kind_and_content() {
    assert_eq!(Channel::<Weather>::Stop, Channel::Stop);
    assert_eq!(Channel::<Weather>::TimelineEvent, Channel::TimelineEvent);
    assert_ne!(Channel::<Weather>::Stop, Channel::Debug);
    assert_ne!(Channel::Topic(Weather::Rain), Channel::Topic(Weather::Sun));
    assert_eq!(Channel::<Weather>::Actor(3), Channel::Actor(3));
    assert_ne!(Channel::<Weather>::Actor(3), Channel::Actor(4));
    assert_ne!(Channel::Topic(Weather::Rain), Channel::General);
}
