use tehuti::timeline::clock::{AuthorityClock, Clock, ClockEvent, ClockProgress, SimulationClock};
use tehuti::timeline::time::TimeStamp;

#[test]
fn answers_tell_where_the_authority_is() {
    let authority = AuthorityClock::new(TimeStamp::new(40));
    let mut clock = SimulationClock::default();
    let ping = clock.ping(1_000);
    assert_eq!(ping, ClockEvent::Ping { id: 1, time: 1_000 });
    let pong = authority.pong(ping, 5_000);
    assert_eq!(
        pong,
        ClockEvent::Pong {
            id: 1,
            time: 1_000,
            authority_time: 5_000,
            authority_tick: TimeStamp::new(40),
        }
    );
    assert_eq!(
        clock.roundtrip(pong, 1_200),
        Some(ClockProgress {
            ticks: 40,
            time: 5_000
        })
    );
    assert_eq!(clock.rtt(), 200);
    assert_eq!(clock.since_last_pong(1_250), 50);
    assert_eq!(clock.estimate_current_authority_tick(3), TimeStamp::new(43));
    assert_eq!(clock.estimate_target_tick(3, 2), TimeStamp::new(45));

    let ping = clock.ping(2_000);
    let pong = AuthorityClock::new(TimeStamp::new(50)).pong(ping, 6_000);
    assert_eq!(
        clock.roundtrip(pong, 2_100),
        Some(ClockProgress {
            ticks: 10,
            time: 1_000
        })
    );
    assert_eq!(clock.rtt(), 150);
}

#[test]
fn late_answers_are_ignored() {
    let authority = AuthorityClock::default();
    let mut clock = SimulationClock::new(TimeStamp::new(3));
    let late = authority.pong(clock.ping(10), 20);
    let ping = clock.ping(30);
    assert_eq!(clock.roundtrip(late, 40), None);
    assert_eq!(clock.roundtrip(ping, 40), None);
    assert_eq!(clock.rtt(), 0);
    assert_eq!(clock.tick, TimeStamp::new(3));
}

#[test]
fn clocks_tick() {
    let mut clock = Clock::Authority(AuthorityClock::default());
    clock.advance(5);
    assert_eq!(clock.tick(), TimeStamp::new(5));
    let mut clock = Clock::Simulation(SimulationClock::default());
    clock.set_tick(TimeStamp::new(9));
    clock.advance(1);
    assert_eq!(clock.tick(), TimeStamp::new(10));
}
