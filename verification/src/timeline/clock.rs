//! Clocks that agree on simulation time across machines.
//!
//! Times are in nanoseconds since the clock that tells them started.

use vstd::prelude::*;

use crate::timeline::time::{saturating_difference, saturating_sum, TimeStamp};

verus! {

/// What clocks tell each other.
#[derive(Debug, Clone, Copy, PartialEq, Eq, Structural)]
pub enum ClockEvent {
    Ping { id: u64, time: u64 },
    Pong { id: u64, time: u64, authority_time: u64, authority_tick: TimeStamp },
}

/// The clock that others follow.
#[derive(Debug, Clone)]
pub struct AuthorityClock {
    pub tick: TimeStamp,
}

impl AuthorityClock {
    pub fn new(tick: TimeStamp) -> (result: Self)
        ensures
            result.tick == tick,
    {
        AuthorityClock { tick }
    }

    /// Answers an event at `elapsed`: with its number and time, and the time and tick here.
    #[must_use]
    pub fn pong(&self, event: ClockEvent, elapsed: u64) -> (result: ClockEvent)
        ensures
            result == (match event {
                ClockEvent::Ping { id, time } => ClockEvent::Pong {
                    id,
                    time,
                    authority_time: elapsed,
                    authority_tick: self.tick,
                },
                ClockEvent::Pong { id, time, .. } => ClockEvent::Pong {
                    id,
                    time,
                    authority_time: elapsed,
                    authority_tick: self.tick,
                },
            }),
    {
        match event {
            ClockEvent::Ping { id, time } => ClockEvent::Pong {
                id,
                time,
                authority_time: elapsed,
                authority_tick: self.tick,
            },
            ClockEvent::Pong { id, time, .. } => ClockEvent::Pong {
                id,
                time,
                authority_time: elapsed,
                authority_tick: self.tick,
            },
        }
    }
}

impl Default for AuthorityClock {
    fn default() -> (result: Self)
        ensures
            result.tick == TimeStamp(0),
    {
        AuthorityClock::new(TimeStamp(0))
    }
}

/// A clock that follows another one.
#[derive(Debug, Clone)]
pub struct SimulationClock {
    pub tick: TimeStamp,
    id_generator: u64,
    rtt: u64,
    last_pong_time: u64,
    last_authority_tick: TimeStamp,
    last_authority_time: u64,
}

/// What a [`SimulationClock`] holds.
pub struct SimulationClockView {
    pub tick: TimeStamp,
    /// The number of the last question.
    pub last_id: u64,
    /// How long a question and its answer take.
    pub rtt: u64,
    /// When the last answer came.
    pub last_pong_time: u64,
    /// What the last answer told.
    pub last_authority_tick: TimeStamp,
    pub last_authority_time: u64,
}

impl View for SimulationClock {
    type V = SimulationClockView;

    closed spec fn view(&self) -> SimulationClockView {
        SimulationClockView {
            tick: self.tick,
            last_id: self.id_generator,
            rtt: self.rtt,
            last_pong_time: self.last_pong_time,
            last_authority_tick: self.last_authority_tick,
            last_authority_time: self.last_authority_time,
        }
    }
}

/// How far the followed clock came between two answers.
#[derive(Debug, Clone, Copy, PartialEq, Eq, Structural)]
pub struct ClockProgress {
    pub ticks: u64,
    pub time: u64,
}

/// A round trip time, taking in a new one: the mean of both, unless there was none.
pub open spec fn averaged(rtt: u64, rtt_now: u64) -> u64 {
    if rtt == 0 {
        rtt_now
    } else {
        ((rtt + rtt_now) / 2) as u64
    }
}

impl SimulationClockView {
    /// Whether an event answers the last question.
    pub open spec fn is_answered_by(self, event: ClockEvent) -> bool {
        event matches ClockEvent::Pong { id, .. } && id == self.last_id
    }

    /// Whether an answer at `now` tells of no time that is yet to come, nor of any that the
    /// last answer was ahead of.
    pub open spec fn is_plausible(self, event: ClockEvent, now: u64) -> bool {
        event matches ClockEvent::Pong { time, authority_time, .. } ==> time <= now
            && self.last_authority_time <= authority_time
    }

    /// Once an event came at `now`.
    pub open spec fn after_event(self, event: ClockEvent, now: u64) -> Self {
        match event {
            ClockEvent::Pong { id, time, authority_time, authority_tick } => if id
                == self.last_id {
                SimulationClockView {
                    rtt: averaged(self.rtt, (now - time) as u64),
                    last_pong_time: now,
                    last_authority_tick: authority_tick,
                    last_authority_time: authority_time,
                    ..self
                }
            } else {
                self
            },
            ClockEvent::Ping { .. } => self,
        }
    }

    /// How far the followed clock came with an event.
    pub open spec fn progress(self, event: ClockEvent) -> Option<ClockProgress> {
        match event {
            ClockEvent::Pong { id, authority_time, authority_tick, .. } => if id == self.last_id {
                Some(
                    ClockProgress {
                        ticks: saturating_difference(
                            authority_tick.0,
                            self.last_authority_tick.0,
                        ),
                        time: (authority_time - self.last_authority_time) as u64,
                    },
                )
            } else {
                None
            },
            ClockEvent::Ping { .. } => None,
        }
    }
}

impl SimulationClock {
    pub fn new(tick: TimeStamp) -> (result: Self)
        ensures
            result@ == (SimulationClockView {
                tick,
                last_id: 0,
                rtt: 0,
                last_pong_time: 0,
                last_authority_tick: tick,
                last_authority_time: 0,
            }),
    {
        SimulationClock {
            tick,
            id_generator: 0,
            rtt: 0,
            last_pong_time: 0,
            last_authority_tick: tick,
            last_authority_time: 0,
        }
    }

    /// Asks a new question at `elapsed`.
    #[must_use]
    pub fn ping(&mut self, elapsed: u64) -> (result: ClockEvent)
        requires
            old(self)@.last_id < u64::MAX,
        ensures
            final(self)@ == (SimulationClockView {
                last_id: (old(self)@.last_id + 1) as u64,
                ..old(self)@
            }),
            result == (ClockEvent::Ping { id: final(self)@.last_id, time: elapsed }),
    {
        self.id_generator = self.id_generator + 1;
        ClockEvent::Ping { id: self.id_generator, time: elapsed }
    }

    /// Takes in an event at `now`. An answer to the last question tells how far the followed
    /// clock came since the one before.
    pub fn roundtrip(&mut self, event: ClockEvent, now: u64) -> (result: Option<ClockProgress>)
        requires
            old(self)@.is_answered_by(event) ==> old(self)@.is_plausible(event, now),
        ensures
            final(self)@ == old(self)@.after_event(event, now),
            result == old(self)@.progress(event),
    {
        match event {
            ClockEvent::Pong { id, time, authority_time, authority_tick } => {
                if id != self.id_generator {
                    return None;
                }
                let rtt_now: u64 = now - time;
                if self.rtt == 0 {
                    self.rtt = rtt_now;
                } else {
                    self.rtt = ((self.rtt as u128 + rtt_now as u128) / 2) as u64;
                }
                let ticks: u64 = authority_tick.0.saturating_sub(self.last_authority_tick.0);
                let passed: u64 = authority_time - self.last_authority_time;
                self.last_authority_tick = authority_tick;
                self.last_authority_time = authority_time;
                self.last_pong_time = now;
                Some(ClockProgress { ticks, time: passed })
            },
            ClockEvent::Ping { .. } => None,
        }
    }

    /// How long a question and its answer take.
    pub fn rtt(&self) -> (result: u64)
        ensures
            result == self@.rtt,
    {
        self.rtt
    }

    /// How long ago, at `now`, the last answer came.
    pub fn since_last_pong(&self, now: u64) -> (result: u64)
        requires
            self@.last_pong_time <= now,
        ensures
            result == now - self@.last_pong_time,
    {
        now - self.last_pong_time
    }

    /// Where the followed clock is, if it came `delta` ticks since the last answer.
    pub fn estimate_current_authority_tick(&self, delta: u64) -> (result: TimeStamp)
        requires
            self@.last_authority_tick.0 + delta <= u64::MAX,
        ensures
            result.0 == self@.last_authority_tick.0 + delta,
    {
        TimeStamp::new(self.last_authority_tick.ticks() + delta)
    }

    /// `lead_ticks` ahead of where the followed clock is, if it came `delta` ticks since the
    /// last answer.
    pub fn estimate_target_tick(&self, delta: u64, lead_ticks: u64) -> (result: TimeStamp)
        requires
            self@.last_authority_tick.0 + delta + lead_ticks <= u64::MAX,
        ensures
            result.0 == self@.last_authority_tick.0 + delta + lead_ticks,
    {
        let estimated = self.estimate_current_authority_tick(delta);
        TimeStamp::new(estimated.ticks() + lead_ticks)
    }
}

impl Default for SimulationClock {
    fn default() -> (result: Self)
        ensures
            result@ == (SimulationClockView {
                tick: TimeStamp(0),
                last_id: 0,
                rtt: 0,
                last_pong_time: 0,
                last_authority_tick: TimeStamp(0),
                last_authority_time: 0,
            }),
    {
        SimulationClock::new(TimeStamp(0))
    }
}

/// Either clock.
#[derive(Debug, Clone)]
pub enum Clock {
    Authority(AuthorityClock),
    Simulation(SimulationClock),
}

impl Clock {
    /// The tick of the clock.
    pub open spec fn current(self) -> TimeStamp {
        match self {
            Clock::Authority(clock) => clock.tick,
            Clock::Simulation(clock) => clock@.tick,
        }
    }

    /// The clock at another tick.
    pub open spec fn is_moved_to(self, tick: TimeStamp, after: Self) -> bool {
        match (self, after) {
            (Clock::Authority(_), Clock::Authority(moved)) => moved.tick == tick,
            (Clock::Simulation(clock), Clock::Simulation(moved)) => moved@ == (
            SimulationClockView { tick, ..clock@ }),
            _ => false,
        }
    }

    pub fn tick(&self) -> (result: TimeStamp)
        ensures
            result == self.current(),
    {
        match self {
            Clock::Authority(clock) => clock.tick,
            Clock::Simulation(clock) => clock.tick,
        }
    }

    pub fn set_tick(&mut self, tick: TimeStamp)
        ensures
            old(self).is_moved_to(tick, *final(self)),
    {
        match self {
            Clock::Authority(clock) => {
                clock.tick = tick;
            },
            Clock::Simulation(clock) => {
                clock.tick = tick;
            },
        }
    }

    /// Moves the clock ahead.
    pub fn advance(&mut self, ticks: u64)
        ensures
            old(self).is_moved_to(
                TimeStamp(saturating_sum(old(self).current().0, ticks)),
                *final(self),
            ),
    {
        let tick: TimeStamp = self.tick();
        self.set_tick(tick + ticks);
    }
}

/// A question that is answered at once, and the answer taken in, gives the time that both took
/// as round trip time, and where the followed clock is.
pub proof fn law_question_and_answer(
    clock: SimulationClockView,
    asked: u64,
    authority_time: u64,
    authority_tick: TimeStamp,
    now: u64,
)
    requires
        clock.rtt == 0,
        asked <= now,
        clock.last_authority_time <= authority_time,
    ensures
        ({
            let answer = ClockEvent::Pong {
                id: clock.last_id,
                time: asked,
                authority_time,
                authority_tick,
            };
            &&& clock.is_answered_by(answer)
            &&& clock.is_plausible(answer, now)
            &&& clock.after_event(answer, now).rtt == now - asked
            &&& clock.after_event(answer, now).last_authority_tick == authority_tick
        }),
{
}

/// Only the answer to the last question counts.
pub proof fn law_late_answers_are_ignored(clock: SimulationClockView, event: ClockEvent, now: u64)
    requires
        !clock.is_answered_by(event),
    ensures
        clock.after_event(event, now) == clock,
        clock.progress(event) is None,
{
}

/// A new round trip time moves the one that is kept towards it, and not beyond.
pub proof fn law_average_is_between(rtt: u64, rtt_now: u64)
    requires
        rtt != 0,
    ensures
        rtt <= rtt_now ==> rtt <= averaged(rtt, rtt_now) <= rtt_now,
        rtt_now <= rtt ==> rtt_now <= averaged(rtt, rtt_now) <= rtt,
{
}

/// Every answer to the last question counts, not only the first one: it tells where and when
/// the followed clock is, so that with no ticks passed since, the estimate is the tick that
/// the latest answer told. Nothing else of the clock moves.
pub proof fn law_latest_answer_counts(
    clock: SimulationClockView,
    time: u64,
    authority_time: u64,
    authority_tick: TimeStamp,
    now: u64,
)
    ensures
        ({
            let answer = ClockEvent::Pong {
                id: clock.last_id,
                time,
                authority_time,
                authority_tick,
            };
            let after = clock.after_event(answer, now);
            &&& clock.is_answered_by(answer)
            &&& after.last_authority_tick == authority_tick
            &&& after.last_authority_time == authority_time
            &&& after.last_pong_time == now
            &&& after.tick == clock.tick
            &&& after.last_id == clock.last_id
        }),
{
}

/// An answer is plausible exactly if it was asked for by now and is not older than the last.
pub proof fn law_plausible_answers(
    clock: SimulationClockView,
    id: u64,
    time: u64,
    authority_time: u64,
    authority_tick: TimeStamp,
    now: u64,
)
    ensures
        clock.is_plausible(
            ClockEvent::Pong { id, time, authority_time, authority_tick },
            now,
        ) <==> time <= now && clock.last_authority_time <= authority_time,
{
}

/// Between two answers the followed clock came as far as the second one is ahead of the first,
/// in ticks and in time.
pub proof fn law_progress_between_answers(
    clock: SimulationClockView,
    first: ClockEvent,
    first_now: u64,
    second: ClockEvent,
)
    requires
        clock.is_answered_by(first),
        clock.is_answered_by(second),
        first->authority_time <= second->authority_time,
    ensures
        ({
            let progress = clock.after_event(first, first_now).progress(second);
            &&& progress is Some
            &&& first->authority_time + progress->0.time == second->authority_time
            &&& first->authority_tick.0 <= second->authority_tick.0 ==> first->authority_tick.0
                + progress->0.ticks == second->authority_tick.0
            &&& first->authority_tick.0 > second->authority_tick.0 ==> progress->0.ticks == 0
        }),
{
}

/// Only an answer to the last question tells how far the followed clock came, and only it
/// moves what is known of that clock.
pub proof fn law_only_answers_count(clock: SimulationClockView, event: ClockEvent, now: u64)
    ensures
        clock.is_answered_by(event) <==> (event matches ClockEvent::Pong { id, .. } && id
            == clock.last_id),
        clock.is_answered_by(event) <==> clock.progress(event) is Some,
        event is Ping ==> clock.after_event(event, now) == clock,
{
}

/// The first round trip time is taken as it is; each later one and the one that is kept lie
/// equally far from the new one, up to the half that is cut off.
pub proof fn law_average_is_in_the_middle(rtt: u64, rtt_now: u64)
    ensures
        rtt == 0 ==> averaged(rtt, rtt_now) == rtt_now,
        rtt != 0 ==> 0 <= (rtt_now - averaged(rtt, rtt_now)) - (averaged(rtt, rtt_now) - rtt) <= 1,
{
}

/// The round trip time behind an answer goes by when the question was asked and when the
/// answer came, and by nothing that the followed clock tells.
pub proof fn law_round_trip_is_measured_here(
    clock: SimulationClockView,
    time: u64,
    authority_time: u64,
    authority_tick: TimeStamp,
    now: u64,
)
    requires
        time <= now,
    ensures
        ({
            let after = clock.after_event(
                ClockEvent::Pong { id: clock.last_id, time, authority_time, authority_tick },
                now,
            );
            &&& clock.rtt == 0 ==> after.rtt == now - time
            &&& clock.rtt != 0 ==> 2 * after.rtt <= clock.rtt + (now - time) <= 2 * after.rtt + 1
        }),
{
}

/// A clock that was moved shows the tick that it was moved to, follows or leads as before, and
/// knows of the followed clock what it knew.
pub proof fn law_moved_clock(before: Clock, tick: TimeStamp, after: Clock)
    requires
        before.is_moved_to(tick, after),
    ensures
        after.current() == tick,
        before is Authority <==> after is Authority,
        after matches Clock::Authority(clock) ==> clock.tick == tick,
        before is Simulation ==> {
            let was = before->Simulation_0@;
            let is_now = after->Simulation_0@;
            &&& is_now.tick == tick
            &&& is_now.last_id == was.last_id
            &&& is_now.rtt == was.rtt
            &&& is_now.last_pong_time == was.last_pong_time
            &&& is_now.last_authority_tick == was.last_authority_tick
            &&& is_now.last_authority_time == was.last_authority_time
        },
{
}

} // verus!
