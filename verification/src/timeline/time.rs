//! Discrete simulation time.

use std::cmp::Ordering;
use std::ops::{Add, Sub};
use vstd::prelude::*;
use vstd::std_specs::cmp::{PartialOrdSpec, PartialOrdSpecImpl};
use vstd::std_specs::ops::{AddSpec, AddSpecImpl, SubSpec, SubSpecImpl};

use crate::buffer::Buffer;
use crate::codec::Codec;
use crate::error::Error;
use crate::label::{label, numeral};
use crate::replication::{DefaultReplicable, LosslessReplicable, Replicable};
use crate::wire::{Applied, Emitted, Parsed};

verus! {

/// A point of simulation time, counted in ticks.
#[derive(Debug, Clone, Copy, PartialEq, Eq, Ord, Hash, Structural)]
pub struct TimeStamp(pub u64);

/// `a + b`, held at the largest `u64`.
pub open spec fn saturating_sum(a: u64, b: u64) -> u64 {
    if a + b > u64::MAX {
        u64::MAX
    } else {
        (a + b) as u64
    }
}

/// `a - b`, held at zero.
pub open spec fn saturating_difference(a: u64, b: u64) -> u64 {
    if a < b {
        0
    } else {
        (a - b) as u64
    }
}

impl TimeStamp {
    pub fn new(ticks: u64) -> (result: Self)
        ensures
            result.0 == ticks,
    {
        TimeStamp(ticks)
    }

    pub fn ticks(&self) -> (result: u64)
        ensures
            result == self.0,
    {
        self.0
    }

    /// The earlier of two time stamps, where an absent one never wins.
    pub open spec fn spec_possibly_oldest(a: Option<Self>, b: Option<Self>) -> Option<Self> {
        match (a, b) {
            (Some(x), Some(y)) => if x.0 <= y.0 {
                Some(x)
            } else {
                Some(y)
            },
            (Some(x), None) => Some(x),
            (None, Some(y)) => Some(y),
            (None, None) => None,
        }
    }

    /// The earlier of the time stamps that are present.
    pub fn possibly_oldest(a: Option<Self>, b: Option<Self>) -> (result: Option<Self>)
        ensures
            result == Self::spec_possibly_oldest(a, b),
    {
        match (a, b) {
            (Some(x), Some(y)) => if x.0 <= y.0 {
                Some(x)
            } else {
                Some(y)
            },
            (Some(x), None) => Some(x),
            (None, Some(y)) => Some(y),
            (None, None) => None,
        }
    }

    /// The earliest of the time stamps that are present.
    pub fn find_possibly_oldest(timestamps: &[Option<Self>]) -> (result: Option<Self>)
        ensures
            result is None <==> (forall|i: int|
                0 <= i < timestamps@.len() ==> #[trigger] timestamps@[i] is None),
            result matches Some(oldest) ==> {
                &&& timestamps@.contains(Some(oldest))
                &&& forall|i: int|
                    0 <= i < timestamps@.len() && (#[trigger] timestamps@[i]) is Some ==> oldest.0
                        <= (timestamps@[i]->0).0
            },
    {
        let mut result: Option<TimeStamp> = None;
        let mut index: usize = 0;
        while index < timestamps.len()
            invariant
                index <= timestamps@.len(),
                result is None <==> (forall|i: int|
                    0 <= i < index ==> #[trigger] timestamps@[i] is None),
                result matches Some(oldest) ==> {
                    &&& timestamps@.contains(Some(oldest))
                    &&& forall|i: int|
                        0 <= i < index && (#[trigger] timestamps@[i]) is Some ==> oldest.0
                            <= (timestamps@[i]->0).0
                },
            decreases timestamps@.len() - index,
        {
            let ghost before = result;
            assert(timestamps@.contains(timestamps@[index as int]));
            result = Self::possibly_oldest(result, timestamps[index]);
            assert(result is None <==> before is None && timestamps@[index as int] is None);
            index += 1;
        }
        result
    }

    /// The id as text.
    pub fn to_text(&self) -> (result: String)
        ensures
            result@ == "#timestamp:"@ + numeral(self.0 as nat),
    {
        label("#timestamp:", self.0 as u128)
    }
}

impl Default for TimeStamp {
    fn default() -> (result: Self)
        ensures
            result.0 == 0,
    {
        TimeStamp(0)
    }
}

impl PartialOrd for TimeStamp {
    fn partial_cmp(&self, other: &Self) -> (result: Option<Ordering>) {
        if self.0 < other.0 {
            Some(Ordering::Less)
        } else if self.0 > other.0 {
            Some(Ordering::Greater)
        } else {
            Some(Ordering::Equal)
        }
    }
}

impl PartialOrdSpecImpl for TimeStamp {
    open spec fn obeys_partial_cmp_spec() -> bool {
        true
    }

    open spec fn partial_cmp_spec(&self, other: &Self) -> Option<Ordering> {
        if self.0 < other.0 {
            Some(Ordering::Less)
        } else if self.0 > other.0 {
            Some(Ordering::Greater)
        } else {
            Some(Ordering::Equal)
        }
    }
}

impl Add<u64> for TimeStamp {
    type Output = Self;

    fn add(self, rhs: u64) -> (result: Self) {
        TimeStamp(self.0.saturating_add(rhs))
    }
}

impl AddSpecImpl<u64> for TimeStamp {
    open spec fn obeys_add_spec() -> bool {
        true
    }

    open spec fn add_req(self, rhs: u64) -> bool {
        true
    }

    open spec fn add_spec(self, rhs: u64) -> Self {
        TimeStamp(saturating_sum(self.0, rhs))
    }
}

impl Sub<u64> for TimeStamp {
    type Output = Self;

    fn sub(self, rhs: u64) -> (result: Self) {
        TimeStamp(self.0.saturating_sub(rhs))
    }
}

impl SubSpecImpl<u64> for TimeStamp {
    open spec fn obeys_sub_spec() -> bool {
        true
    }

    open spec fn sub_req(self, rhs: u64) -> bool {
        true
    }

    open spec fn sub_spec(self, rhs: u64) -> Self {
        TimeStamp(saturating_difference(self.0, rhs))
    }
}

impl Sub for TimeStamp {
    type Output = usize;

    fn sub(self, rhs: Self) -> (result: usize) {
        self.0.saturating_sub(rhs.0) as usize
    }
}

impl SubSpecImpl for TimeStamp {
    open spec fn obeys_sub_spec() -> bool {
        true
    }

    open spec fn sub_req(self, rhs: Self) -> bool {
        true
    }

    open spec fn sub_spec(self, rhs: Self) -> usize {
        saturating_difference(self.0, rhs.0) as usize
    }
}

impl TimeStamp {
    /// Moves the time stamp `rhs` ticks ahead, stopping at the last representable tick.
    pub fn add_assign(&mut self, rhs: u64)
        ensures
            final(self).0 == saturating_sum(old(self).0, rhs),
    {
        self.0 = self.0.saturating_add(rhs);
    }

    /// Moves the time stamp `rhs` ticks back, stopping at zero.
    pub fn sub_assign(&mut self, rhs: u64)
        ensures
            final(self).0 == saturating_difference(old(self).0, rhs),
    {
        self.0 = self.0.saturating_sub(rhs);
    }
}

impl Replicable for TimeStamp {
    type Model = TimeStamp;

    open spec fn model(self) -> TimeStamp {
        self
    }

    open spec fn emit(self) -> Emitted {
        <u64 as Replicable>::emit(self.0)
    }

    open spec fn parse(prior: TimeStamp, bytes: Seq<u8>) -> Applied<TimeStamp> {
        let number = <u64 as Replicable>::parse(prior.0, bytes);
        Applied {
            model: TimeStamp(number.model),
            error: number.error,
            consumed: number.consumed,
        }
    }

    proof fn parse_is_within(prior: TimeStamp, bytes: Seq<u8>) {
        <u64 as Replicable>::parse_is_within(prior.0, bytes);
    }

    fn collect_changes(&self, buffer: &mut Buffer) -> (result: Result<(), Error>) {
        self.0.collect_changes(buffer)
    }

    fn apply_changes(&mut self, buffer: &mut Buffer) -> (result: Result<(), Error>) {
        self.0.apply_changes(buffer)
    }
}

impl DefaultReplicable for TimeStamp {
    open spec fn blank() -> TimeStamp {
        TimeStamp(0)
    }

    proof fn default_is_blank(value: TimeStamp) {
    }
}

impl LosslessReplicable for TimeStamp {
    open spec fn fits(self) -> bool {
        true
    }

    proof fn law_round_trip(self, prior: TimeStamp, tail: Seq<u8>) {
        <u64 as LosslessReplicable>::law_round_trip(self.0, prior.0, tail);
    }
}

impl Codec for TimeStamp {
    type Value = TimeStamp;

    type Model = TimeStamp;

    open spec fn model(value: TimeStamp) -> TimeStamp {
        value
    }

    open spec fn emit(value: TimeStamp) -> Emitted {
        <u64 as Codec>::emit(value.0)
    }

    open spec fn parse(bytes: Seq<u8>) -> Parsed<TimeStamp> {
        let number = <u64 as Codec>::parse(bytes);
        Parsed {
            result: match number.result {
                Ok(ticks) => Ok(TimeStamp(ticks)),
                Err(error) => Err(error),
            },
            consumed: number.consumed,
        }
    }

    proof fn parse_is_within(bytes: Seq<u8>) {
        <u64 as Codec>::parse_is_within(bytes);
    }

    fn encode(message: &TimeStamp, buffer: &mut Buffer) -> (result: Result<(), Error>) {
        <u64 as Codec>::encode(&message.0, buffer)
    }

    fn decode(buffer: &mut Buffer) -> (result: Result<TimeStamp, Error>) {
        match <u64 as Codec>::decode(buffer) {
            Ok(ticks) => Ok(TimeStamp(ticks)),
            Err(error) => Err(error),
        }
    }
}

/// Sums and differences are those of numbers as far as there are such ticks, and else the last
/// and the first tick.
pub proof fn law_time_is_held(a: u64, b: u64)
    ensures
        a + b <= u64::MAX ==> saturating_sum(a, b) == a + b,
        a + b > u64::MAX ==> saturating_sum(a, b) == u64::MAX,
        b <= a ==> saturating_difference(a, b) == a - b,
        b > a ==> saturating_difference(a, b) == 0,
{
}

/// Ticks that were gone ahead are those that can be gone back, and that lie between.
pub proof fn law_ahead_and_back(timestamp: TimeStamp, ticks: u64)
    requires
        timestamp.0 + ticks <= u64::MAX,
        ticks <= usize::MAX,
    ensures
        ({
            let later = AddSpec::<u64>::add_spec(timestamp, ticks);
            &&& later.0 == timestamp.0 + ticks
            &&& SubSpec::<u64>::sub_spec(later, ticks) == timestamp
            &&& SubSpec::<TimeStamp>::sub_spec(later, timestamp) == ticks
            &&& SubSpec::<TimeStamp>::sub_spec(timestamp, later) == 0
        }),
{
}

/// The older of two time stamps is one of them and not later than either; an absent one gives
/// way to the other.
pub proof fn law_oldest_is_least(a: Option<TimeStamp>, b: Option<TimeStamp>)
    ensures
        ({
            let oldest = TimeStamp::spec_possibly_oldest(a, b);
            &&& oldest is None <==> a is None && b is None
            &&& oldest is Some ==> oldest == a || oldest == b
            &&& a is Some ==> (oldest->0).0 <= (a->0).0
            &&& b is Some ==> (oldest->0).0 <= (b->0).0
        }),
{
}

/// Time stamps are ordered as their ticks are.
pub proof fn law_ordered_by_ticks(a: TimeStamp, b: TimeStamp)
    ensures
        PartialOrdSpec::partial_cmp_spec(&a, &b) == Some(Ordering::Less) <==> a.0 < b.0,
        PartialOrdSpec::partial_cmp_spec(&a, &b) == Some(Ordering::Equal) <==> a.0 == b.0,
        PartialOrdSpec::partial_cmp_spec(&a, &b) == Some(Ordering::Greater) <==> a.0 > b.0,
{
}

} // verus!
