//! A window of values, one for each tick.

use std::collections::VecDeque;
use std::ops::RangeInclusive;
use vstd::prelude::*;
use vstd::std_specs::cmp::PartialEqSpec;

use crate::buffer::Buffer;
use crate::error::Error;
use crate::primitive::{bool_byte, parse_bool, read_bool, write_bool};
use crate::replication::{DefaultReplicable, LosslessReplicable, Replicable};
use crate::timeline::time::{saturating_difference, saturating_sum, TimeStamp};
use crate::wire::{failure, Applied, Emitted};

verus! {

broadcast use vstd::std_specs::vecdeque::group_vec_dequeue_axioms;

/// One end of a span of time.
#[derive(Debug, Clone, Copy, PartialEq, Eq, Structural)]
pub enum TickBound {
    Included(TimeStamp),
    Excluded(TimeStamp),
    Unbounded,
}

/// A span of time with any kind of ends.
#[derive(Debug, Clone, Copy, PartialEq, Eq, Structural)]
pub struct TickRange {
    pub start: TickBound,
    pub end: TickBound,
}

impl TickRange {
    /// All of time.
    pub fn full() -> (result: Self)
        ensures
            result == (TickRange { start: TickBound::Unbounded, end: TickBound::Unbounded }),
    {
        TickRange { start: TickBound::Unbounded, end: TickBound::Unbounded }
    }

    /// From `first` to `last`, both included.
    pub fn inclusive(first: TimeStamp, last: TimeStamp) -> (result: Self)
        ensures
            result == (TickRange {
                start: TickBound::Included(first),
                end: TickBound::Included(last),
            }),
    {
        TickRange { start: TickBound::Included(first), end: TickBound::Included(last) }
    }

    /// From `first` on.
    pub fn since(first: TimeStamp) -> (result: Self)
        ensures
            result == (TickRange { start: TickBound::Included(first), end: TickBound::Unbounded }),
    {
        TickRange { start: TickBound::Included(first), end: TickBound::Unbounded }
    }

    /// From `first` to the tick before `end`.
    pub fn between(first: TimeStamp, end: TimeStamp) -> (result: Self)
        ensures
            result == (TickRange {
                start: TickBound::Included(first),
                end: TickBound::Excluded(end),
            }),
    {
        TickRange { start: TickBound::Included(first), end: TickBound::Excluded(end) }
    }

    /// The first tick of the span, where `past` is the first tick of an open one.
    pub open spec fn first_tick(self, past: TimeStamp) -> TimeStamp {
        match self.start {
            TickBound::Included(first) => first,
            TickBound::Excluded(before) => TimeStamp(saturating_sum(before.0, 1)),
            TickBound::Unbounded => past,
        }
    }

    /// The last tick of the span, where `now` is the last tick of an open one.
    pub open spec fn last_tick(self, now: TimeStamp) -> TimeStamp {
        match self.end {
            TickBound::Included(last) => last,
            TickBound::Excluded(behind) => TimeStamp(saturating_difference(behind.0, 1)),
            TickBound::Unbounded => now,
        }
    }

    /// The first tick of the span, where `past` is the first tick of an open one.
    pub fn first_from(&self, past: TimeStamp) -> (result: TimeStamp)
        ensures
            result == self.first_tick(past),
    {
        match self.start {
            TickBound::Included(first) => first,
            TickBound::Excluded(before) => before + 1,
            TickBound::Unbounded => past,
        }
    }

    /// The last tick of the span, where `now` is the last tick of an open one.
    pub fn last_to(&self, now: TimeStamp) -> (result: TimeStamp)
        ensures
            result == self.last_tick(now),
    {
        match self.end {
            TickBound::Included(last) => last,
            TickBound::Excluded(behind) => behind - 1,
            TickBound::Unbounded => now,
        }
    }

    /// Up to and including `last`.
    pub fn until(last: TimeStamp) -> (result: Self)
        ensures
            result == (TickRange { start: TickBound::Unbounded, end: TickBound::Included(last) }),
    {
        TickRange { start: TickBound::Unbounded, end: TickBound::Included(last) }
    }

    /// Whether the whole span lies before `timestamp`.
    pub open spec fn spec_ends_before(self, timestamp: TimeStamp) -> bool {
        match self.end {
            TickBound::Included(last) => timestamp.0 > last.0,
            TickBound::Excluded(behind) => timestamp.0 >= behind.0,
            TickBound::Unbounded => false,
        }
    }

    /// Whether the whole span lies behind `timestamp`.
    pub open spec fn spec_starts_after(self, timestamp: TimeStamp) -> bool {
        match self.start {
            TickBound::Included(first) => timestamp.0 < first.0,
            TickBound::Excluded(before) => timestamp.0 <= before.0,
            TickBound::Unbounded => false,
        }
    }

    /// Whether the span holds `timestamp`.
    pub open spec fn spec_contains(self, timestamp: TimeStamp) -> bool {
        !self.spec_starts_after(timestamp) && !self.spec_ends_before(timestamp)
    }

    /// Whether the whole span lies before `timestamp`.
    pub fn ends_before(&self, timestamp: TimeStamp) -> (result: bool)
        ensures
            result == self.spec_ends_before(timestamp),
    {
        match self.end {
            TickBound::Included(last) => timestamp.0 > last.0,
            TickBound::Excluded(behind) => timestamp.0 >= behind.0,
            TickBound::Unbounded => false,
        }
    }

    /// Whether the whole span lies behind `timestamp`.
    pub fn starts_after(&self, timestamp: TimeStamp) -> (result: bool)
        ensures
            result == self.spec_starts_after(timestamp),
    {
        match self.start {
            TickBound::Included(first) => timestamp.0 < first.0,
            TickBound::Excluded(before) => timestamp.0 <= before.0,
            TickBound::Unbounded => false,
        }
    }

    /// Whether the span holds `timestamp`.
    pub fn contains(&self, timestamp: TimeStamp) -> (result: bool)
        ensures
            result == self.spec_contains(timestamp),
    {
        !self.starts_after(timestamp) && !self.ends_before(timestamp)
    }
}

/// Whether `copy` is `value` itself or what cloning it gave.
pub open spec fn copy_of<T: Clone>(value: T, copy: T) -> bool {
    copy == value || cloned::<T>(value, copy)
}

/// What a [`HistoryBuffer`] holds.
#[verifier::ext_equal]
pub struct HistoryView<T> {
    pub capacity: usize,
    pub items: Seq<T>,
    pub now: TimeStamp,
}

impl<T> HistoryView<T> {
    /// The tick of the first value.
    pub open spec fn first_tick(self) -> u64 {
        saturating_difference(self.now.0, (self.items.len() - 1) as u64)
    }

    /// Whether the window does not reach back beyond tick zero.
    pub open spec fn consistent(self) -> bool {
        self.items.len() == 0 || self.items.len() - 1 <= self.now.0
    }

    /// The value at `timestamp`.
    pub open spec fn at(self, timestamp: TimeStamp) -> Option<T> {
        let index = timestamp.0 - self.first_tick();
        if self.items.len() > 0 && 0 <= index < self.items.len() {
            Some(self.items[index])
        } else {
            None
        }
    }

    /// The value at `timestamp`, or else the one at the nearer end of the window.
    pub open spec fn extrapolated(self, timestamp: TimeStamp) -> Option<T> {
        if self.items.len() == 0 {
            None
        } else if timestamp.0 < self.first_tick() {
            Some(self.items[0])
        } else if timestamp.0 > self.now.0 {
            Some(self.items.last())
        } else {
            self.at(timestamp)
        }
    }

    /// All values with their ticks.
    pub open spec fn all_entries(self) -> Seq<(TimeStamp, T)> {
        Seq::new(
            self.items.len(),
            |i: int| (TimeStamp(saturating_sum(self.first_tick(), i as u64)), self.items[i]),
        )
    }

    /// The values whose ticks lie in `range`, with their ticks, in order of time.
    pub open spec fn entries(self, range: TickRange) -> Seq<(TimeStamp, T)> {
        self.all_entries().filter(|entry: (TimeStamp, T)| range.spec_contains(entry.0))
    }
}

impl<T: Clone> HistoryView<T> {
    /// Whether `after` is what putting `value` at a tick before the window makes of it: the
    /// ticks up to the old window all hold the value, and the latest ticks are given up where
    /// there are more than fit.
    pub open spec fn set_before(self, timestamp: TimeStamp, value: T, after: Self) -> bool {
        let gap = self.first_tick() - timestamp.0;
        let kept: int = if gap >= self.capacity || gap + self.items.len() > self.capacity {
            self.capacity as int
        } else {
            gap + self.items.len()
        };
        let reach = saturating_sum(timestamp.0, if kept == 0 { 0 } else { (kept - 1) as u64 });
        &&& after.items.len() == kept
        &&& forall|i: int|
            0 <= i < kept && i < gap ==> copy_of(value, #[trigger] after.items[i])
        &&& forall|i: int|
            gap <= i < kept ==> #[trigger] after.items[i] == self.items[i - gap]
        &&& after.now.0 == if self.now.0 <= reach { self.now.0 } else { reach }
    }

    /// Whether `after` is what putting `value` at a tick behind the window makes of it: the
    /// ticks between hold what the window ended with, and the earliest ticks are given up
    /// where there are more than fit.
    pub open spec fn set_behind(self, timestamp: TimeStamp, value: T, after: Self) -> bool {
        let total = self.items.len() + (timestamp.0 - self.now.0);
        let kept: int = if total > self.capacity { self.capacity as int } else { total };
        &&& after.items.len() == kept
        &&& forall|i: int|
            0 <= i < kept && i + (total - kept) < self.items.len()
                ==> #[trigger] after.items[i] == self.items[i + (total - kept)]
        &&& forall|i: int|
            0 <= i < kept - 1 && i + (total - kept) >= self.items.len()
                ==> copy_of(self.items.last(), #[trigger] after.items[i])
        &&& after.items[kept - 1] == value
        &&& after.now == timestamp
    }

    /// Whether `after` is what putting `value` at `timestamp` makes of the history.
    pub open spec fn set_to(self, timestamp: TimeStamp, value: T, after: Self) -> bool {
        &&& after.capacity == self.capacity
        &&& if self.items.len() == 0 {
            after.items == seq![value] && after.now == timestamp
        } else if timestamp.0 < self.first_tick() {
            self.set_before(timestamp, value, after)
        } else if timestamp.0 > self.now.0 {
            self.set_behind(timestamp, value, after)
        } else {
            after.items == self.items.update(timestamp.0 - self.first_tick(), value) && after.now
                == self.now
        }
    }

    /// Whether `after` is what cloning in `entries`, one after the other, makes of the history.
    pub open spec fn set_all(self, entries: Seq<(TimeStamp, T)>, after: Self) -> bool
        decreases entries.len(),
    {
        if entries.len() == 0 {
            after == self
        } else {
            exists|before_last: Self, copy: T|
                {
                    &&& self.set_all(entries.drop_last(), before_last)
                    &&& cloned::<T>(entries.last().1, copy)
                    &&& #[trigger] before_last.set_to(entries.last().0, copy, after)
                }
        }
    }

    /// Whether putting a value at `timestamp` leaves room for it.
    pub open spec fn accepts(self, timestamp: TimeStamp) -> bool {
        self.items.len() > 0 && timestamp.0 > self.now.0 ==> self.capacity > 0
    }

    /// Whether every one of `entries` finds room when they are put in one after the other.
    pub open spec fn accepts_all(self, entries: Seq<(TimeStamp, T)>) -> bool {
        forall|index: int, between: Self|
            0 <= index < entries.len() && #[trigger] self.set_all(entries.take(index), between)
                ==> between.accepts(entries[index].0)
    }

    /// A history with any capacity takes whatever is put in.
    pub proof fn lemma_accepts_all(self, entries: Seq<(TimeStamp, T)>)
        requires
            self.capacity > 0,
        ensures
            self.accepts_all(entries),
    {
        assert forall|index: int, between: Self|
            0 <= index < entries.len() && #[trigger] self.set_all(
                entries.take(index),
                between,
            ) implies between.accepts(entries[index].0) by {
            self.lemma_set_all_keeps_capacity(entries.take(index), between);
        }
    }

    /// Putting values in does not change the capacity.
    pub proof fn lemma_set_all_keeps_capacity(self, entries: Seq<(TimeStamp, T)>, after: Self)
        requires
            self.set_all(entries, after),
        ensures
            after.capacity == self.capacity,
        decreases entries.len(),
    {
        if entries.len() > 0 {
            let (before_last, copy) = choose|before_last: Self, copy: T|
                {
                    &&& self.set_all(entries.drop_last(), before_last)
                    &&& cloned::<T>(entries.last().1, copy)
                    &&& #[trigger] before_last.set_to(entries.last().0, copy, after)
                };
            self.lemma_set_all_keeps_capacity(entries.drop_last(), before_last);
        }
    }

    /// Whether `after` is what moving the end of the window to `timestamp` makes of it: later
    /// ticks are dropped, and new ones hold what the window ended with.
    pub open spec fn travelled_to(self, timestamp: TimeStamp, after: Self) -> bool {
        let total = self.items.len() + (timestamp.0 - self.now.0);
        let kept: int = if total > self.capacity { self.capacity as int } else { total };
        &&& after.capacity == self.capacity
        &&& after.now == timestamp
        &&& if self.items.len() == 0 || timestamp.0 < self.first_tick() {
            after.items == Seq::<T>::empty()
        } else if timestamp.0 < self.now.0 {
            after.items == self.items.take(timestamp.0 - self.first_tick() + 1)
        } else if timestamp.0 == self.now.0 {
            after.items == self.items
        } else {
            &&& after.items.len() == kept
            &&& forall|i: int|
                0 <= i < kept && i + (total - kept) < self.items.len()
                    ==> #[trigger] after.items[i] == self.items[i + (total - kept)]
            &&& forall|i: int|
                0 <= i < kept && i + (total - kept) >= self.items.len()
                    ==> copy_of(self.items.last(), #[trigger] after.items[i])
        }
    }
}

impl<T> HistoryView<T> {
    /// Whether both histories reach over `timestamp`.
    pub open spec fn covers_with(self, other: Self, timestamp: TimeStamp) -> bool {
        &&& self.items.len() > 0
        &&& other.items.len() > 0
        &&& self.first_tick() <= timestamp.0 <= self.now.0
        &&& other.first_tick() <= timestamp.0 <= other.now.0
    }
}

impl<T: PartialEq> HistoryView<T> {
    /// Whether the two histories hold different values at `timestamp`.
    pub open spec fn differs_at(self, other: Self, timestamp: TimeStamp) -> bool {
        match (self.at(timestamp), other.at(timestamp)) {
            (Some(a), Some(b)) => !a.eq_spec(&b),
            (None, None) => false,
            _ => true,
        }
    }

    /// Whether `result` is the first tick that both histories cover and at which they differ.
    /// Where equality is not what its specification says, only that it is covered is told.
    pub open spec fn diverges_from(self, other: Self, result: Option<TimeStamp>) -> bool {
        &&& self.items.len() == 0 || other.items.len() == 0 ==> result is None
        &&& result matches Some(timestamp) ==> {
            &&& self.covers_with(other, timestamp)
            &&& T::obeys_eq_spec() ==> self.differs_at(other, timestamp)
            &&& T::obeys_eq_spec() ==> forall|earlier: TimeStamp|
                earlier.0 < timestamp.0 && self.covers_with(other, earlier) ==> !(
                #[trigger] self.differs_at(other, earlier))
        }
        &&& result is None && T::obeys_eq_spec() ==> forall|timestamp: TimeStamp|
            self.covers_with(other, timestamp) ==> !(#[trigger] self.differs_at(
                other,
                timestamp,
            ))
    }
}

impl<T: Clone> HistoryView<T> {
    /// A value that was put at a tick is there, and the window reaches over that tick.
    pub proof fn law_set_then_get(self, timestamp: TimeStamp, value: T, after: Self)
        requires
            self.consistent(),
            self.capacity > 0,
            self.set_to(timestamp, value, after),
        ensures
            after.consistent(),
            after.at(timestamp) is Some,
            copy_of(value, after.at(timestamp)->0),
    {
    }

    /// Putting a value at a tick changes no other tick that stays in the window.
    pub proof fn law_set_keeps_the_rest(
        self,
        timestamp: TimeStamp,
        value: T,
        after: Self,
        other: TimeStamp,
    )
        requires
            self.consistent(),
            self.capacity > 0,
            self.set_to(timestamp, value, after),
            other != timestamp,
            self.at(other) is Some,
            after.at(other) is Some,
        ensures
            after.at(other) == self.at(other),
    {
    }

    /// The ticks between the window and a later tick repeat what the window ended with.
    pub proof fn law_set_repeats_the_last(
        self,
        timestamp: TimeStamp,
        value: T,
        after: Self,
        between: TimeStamp,
    )
        requires
            self.consistent(),
            self.capacity > 0,
            self.items.len() > 0,
            self.set_to(timestamp, value, after),
            self.now.0 < between.0 < timestamp.0,
            after.at(between) is Some,
        ensures
            copy_of(self.items.last(), after.at(between)->0),
    {
    }

    /// The ticks between an earlier tick and the window hold the value that was put there.
    pub proof fn law_set_fills_back(
        self,
        timestamp: TimeStamp,
        value: T,
        after: Self,
        between: TimeStamp,
    )
        requires
            self.consistent(),
            self.capacity > 0,
            self.items.len() > 0,
            self.set_to(timestamp, value, after),
            timestamp.0 < between.0 < self.first_tick(),
            after.at(between) is Some,
        ensures
            copy_of(value, after.at(between)->0),
    {
    }

    /// Values for ticks that follow one another, once they are cloned in, are there, as far as
    /// the window reaches back, and it reaches over the last of them.
    pub proof fn law_set_all_then_get(
        self,
        entries: Seq<(TimeStamp, T)>,
        after: Self,
        place: int,
    )
        requires
            self.consistent(),
            self.capacity > 0,
            self.set_all(entries, after),
            forall|i: int|
                0 <= i < entries.len() ==> (#[trigger] entries[i]).0.0 == entries[0].0.0 + i,
            0 <= place < entries.len(),
        ensures
            after.consistent(),
            after.capacity == self.capacity,
            after.at(entries.last().0) is Some,
            after.at(entries[place].0) is Some ==> exists|copy: T|
                #![trigger cloned::<T>(entries[place].1, copy)]
                cloned::<T>(entries[place].1, copy) && copy_of(copy, after.at(entries[place].0)->0),
        decreases entries.len(),
    {
        let (before, copy) = choose|before: Self, copy: T|
            {
                &&& self.set_all(entries.drop_last(), before)
                &&& cloned::<T>(entries.last().1, copy)
                &&& #[trigger] before.set_to(entries.last().0, copy, after)
            };
        let earlier = entries.drop_last();
        if earlier.len() == 0 {
            self.law_set_then_get(entries.last().0, copy, after);
        } else {
            assert(earlier.last().0.0 == entries[0].0.0 + (earlier.len() - 1));
            self.law_set_all_then_get(earlier, before, earlier.len() - 1);
            before.law_set_then_get(entries.last().0, copy, after);
            if place < earlier.len() {
                self.law_set_all_then_get(earlier, before, place);
                if after.at(entries[place].0) is Some {
                    assert(before.at(entries[place].0) is Some);
                    before.law_set_keeps_the_rest(
                        entries.last().0,
                        copy,
                        after,
                        entries[place].0,
                    );
                }
            }
        }
    }

    /// The window never holds more values than its capacity.
    pub proof fn law_window_is_bounded(self, timestamp: TimeStamp, value: T, after: Self)
        requires
            self.capacity > 0,
            self.items.len() <= self.capacity,
            self.set_to(timestamp, value, after),
        ensures
            after.items.len() <= after.capacity,
    {
    }

    /// Travelling to a tick of the window keeps everything up to that tick and drops the rest.
    pub proof fn law_travel_back(self, timestamp: TimeStamp, after: Self, other: TimeStamp)
        requires
            self.consistent(),
            self.at(timestamp) is Some,
            self.travelled_to(timestamp, after),
        ensures
            after.consistent(),
            other.0 <= timestamp.0 ==> after.at(other) == self.at(other),
            other.0 > timestamp.0 ==> after.at(other) is None,
    {
    }

    /// Travelling ahead repeats what the window ended with up to the new end.
    pub proof fn law_travel_ahead(self, timestamp: TimeStamp, after: Self, other: TimeStamp)
        requires
            self.consistent(),
            self.items.len() > 0,
            timestamp.0 > self.now.0,
            self.travelled_to(timestamp, after),
            after.at(other) is Some,
        ensures
            after.consistent(),
            other.0 <= self.now.0 ==> after.at(other) == self.at(other),
            other.0 > self.now.0 ==> copy_of(self.items.last(), after.at(other)->0),
    {
    }
}

impl<T> HistoryView<T> {
    /// The ticks of the values in a range follow one another.
    pub proof fn law_entries_follow(self, range: TickRange, place: int)
        requires
            self.consistent(),
            0 <= place < self.entries(range).len(),
        ensures
            self.entries(range)[place].0.0 == self.entries(range)[0].0.0 + place,
    {
        let all = self.all_entries();
        let first: int = self.first_tick() as int;
        let from: int = match range.start {
            TickBound::Included(tick) => tick.0 as int,
            TickBound::Excluded(tick) => tick.0 + 1,
            TickBound::Unbounded => 0,
        };
        let to: int = match range.end {
            TickBound::Included(tick) => tick.0 + 1,
            TickBound::Excluded(tick) => tick.0 as int,
            TickBound::Unbounded => first + all.len(),
        };
        let start: int = if from <= first {
            0
        } else if from - first <= all.len() {
            from - first
        } else {
            all.len() as int
        };
        let end: int = if to <= first + start {
            start
        } else if to - first <= all.len() {
            to - first
        } else {
            all.len() as int
        };
        let wanted = |entry: (TimeStamp, T)| range.spec_contains(entry.0);
        assert forall|i: int| 0 <= i < all.len() implies (wanted(#[trigger] all[i]) <==> start <= i
            < end) by {
            assert(all[i].0.0 == first + i);
        }
        lemma_filter_is_subrange(all, wanted, start, end);
    }
}

/// What is left of a sequence was in it.
proof fn lemma_filter_takes_from<A>(all: Seq<A>, wanted: spec_fn(A) -> bool, item: A)
    requires
        all.filter(wanted).contains(item),
    ensures
        all.contains(item),
    decreases all.len(),
{
    reveal(Seq::filter);
    if all.len() > 0 {
        if all.drop_last().filter(wanted).contains(item) {
            lemma_filter_takes_from(all.drop_last(), wanted, item);
            let i = choose|i: int| 0 <= i < all.len() - 1 && all.drop_last()[i] == item;
            assert(all[i] == item);
        } else {
            assert(all[all.len() - 1] == item);
        }
    }
}

/// Filtering a sequence by what holds of one stretch of it gives that stretch.
proof fn lemma_filter_is_subrange<A>(all: Seq<A>, wanted: spec_fn(A) -> bool, start: int, end: int)
    requires
        0 <= start <= end <= all.len(),
        forall|i: int| 0 <= i < all.len() ==> (wanted(#[trigger] all[i]) <==> start <= i < end),
    ensures
        all.filter(wanted) == all.subrange(start, end),
    decreases all.len(),
{
    reveal(Seq::filter);
    if all.len() == 0 {
        assert(all.subrange(start, end) =~= Seq::empty());
    } else {
        let rest = all.drop_last();
        if start == end {
            assert forall|i: int| 0 <= i < rest.len() implies (wanted(#[trigger] rest[i]) <==> 0 <= i
                < 0) by {
                assert(rest[i] == all[i]);
            }
            lemma_filter_is_subrange(rest, wanted, 0, 0);
            assert(rest.subrange(0, 0) =~= Seq::empty());
            assert(all.subrange(start, end) =~= Seq::empty());
        } else if end == all.len() {
            assert forall|i: int| 0 <= i < rest.len() implies (wanted(#[trigger] rest[i]) <==> start
                <= i < end - 1) by {
                assert(rest[i] == all[i]);
            }
            lemma_filter_is_subrange(rest, wanted, start, end - 1);
            assert(rest.subrange(start, end - 1).push(all.last()) =~= all.subrange(start, end));
        } else {
            assert forall|i: int| 0 <= i < rest.len() implies (wanted(#[trigger] rest[i]) <==> start
                <= i < end) by {
                assert(rest[i] == all[i]);
            }
            lemma_filter_is_subrange(rest, wanted, start, end);
            assert(rest.subrange(start, end) =~= all.subrange(start, end));
        }
    }
}

/// `VecDeque::get_mut`: the element at `index`, through which it alone can be changed, or
/// nothing if there is none.
#[verifier::external_body]
fn deque_get_mut<T>(deque: &mut VecDeque<T>, index: usize) -> (result: Option<&mut T>)
    ensures
        result is Some <==> index < old(deque)@.len(),
        result matches Some(element) ==> {
            &&& *element == old(deque)@[index as int]
            &&& final(deque)@ == old(deque)@.update(index as int, *final(element))
        },
        result is None ==> final(deque)@ == old(deque)@,
{
    deque.get_mut(index)
}

/// `count` copies of `value`.
fn copies<T: Clone>(value: &T, count: usize) -> (result: VecDeque<T>)
    ensures
        result@.len() == count,
        forall|i: int| 0 <= i < count ==> copy_of(*value, #[trigger] result@[i]),
{
    let mut result: VecDeque<T> = VecDeque::new();
    while result.len() < count
        invariant
            result@.len() <= count,
            forall|i: int| 0 <= i < result@.len() ==> copy_of(*value, #[trigger] result@[i]),
        decreases count - result@.len(),
    {
        result.push_back(value.clone());
    }
    result
}

/// Repeats the last element `count` times.
fn repeat_last<T: Clone>(deque: &mut VecDeque<T>, count: usize)
    requires
        old(deque)@.len() > 0,
    ensures
        final(deque)@.len() == old(deque)@.len() + count,
        final(deque)@.take(old(deque)@.len() as int) == old(deque)@,
        forall|i: int|
            old(deque)@.len() <= i < final(deque)@.len() ==> copy_of(
                old(deque)@.last(),
                #[trigger] final(deque)@[i],
            ),
{
    let ghost start = deque@;
    let last: usize = deque.len() - 1;
    let mut index: usize = 0;
    while index < count
        invariant
            index <= count,
            last == start.len() - 1,
            deque@.len() == start.len() + index,
            deque@.take(start.len() as int) =~= start,
            forall|i: int|
                start.len() <= i < deque@.len() ==> copy_of(start.last(), #[trigger] deque@[i]),
        decreases count - index,
    {
        assert(deque@.take(start.len() as int)[last as int] == deque@[last as int]);
        let copy = deque[last].clone();
        deque.push_back(copy);
        index = index + 1;
    }
}

fn push_front_copies<T: Clone>(deque: &mut VecDeque<T>, value: &T, count: usize)
    ensures
        final(deque)@.len() == old(deque)@.len() + count,
        final(deque)@.skip(count as int) == old(deque)@,
        forall|i: int| 0 <= i < count ==> copy_of(*value, #[trigger] final(deque)@[i]),
{
    let ghost start = deque@;
    let mut index: usize = 0;
    while index < count
        invariant
            index <= count,
            deque@.len() == start.len() + index,
            deque@.skip(index as int) =~= start,
            forall|i: int| 0 <= i < index ==> copy_of(*value, #[trigger] deque@[i]),
        decreases count - index,
    {
        let ghost before = deque@;
        deque.push_front(value.clone());
        assert(deque@.skip(index + 1) =~= before.skip(index as int));
        index = index + 1;
    }
}

/// Drops elements from the front until at most `count` are left.
fn keep_last<T>(deque: &mut VecDeque<T>, count: usize)
    ensures
        final(deque)@ == old(deque)@.skip(
            if old(deque)@.len() > count {
                old(deque)@.len() - count
            } else {
                0
            },
        ),
{
    let ghost start = deque@;
    let ghost mut dropped: int = 0;
    while deque.len() > count
        invariant
            0 <= dropped <= start.len(),
            deque@ =~= start.skip(dropped),
            dropped > 0 ==> deque@.len() >= count,
        decreases deque@.len(),
    {
        let _ = deque.pop_front();
        proof {
            dropped = dropped + 1;
        }
    }
}

/// A history of values, one for each tick of a window that ends now.
#[derive(Debug, Clone, PartialEq, Eq)]
pub struct HistoryBuffer<T: Clone> {
    capacity: usize,
    buffer: VecDeque<T>,
    now: TimeStamp,
}

impl<T: Clone> View for HistoryBuffer<T> {
    type V = HistoryView<T>;

    closed spec fn view(&self) -> HistoryView<T> {
        HistoryView { capacity: self.capacity, items: self.buffer@, now: self.now }
    }
}

impl<T: Clone> HistoryBuffer<T> {
    /// A history of `items`, the last of which is at `now`.
    pub fn new(now: TimeStamp, items: Vec<T>) -> (result: Self)
        ensures
            result@.capacity == items@.len(),
            result@.items == items@,
            result@.now == now,
    {
        let capacity: usize = items.len();
        let ghost all = items@;
        let mut items = items;
        let mut buffer: VecDeque<T> = VecDeque::new();
        while items.len() > 0
            invariant
                items@ + buffer@ =~= all,
            decreases items@.len(),
        {
            let last = items.pop();
            match last {
                Some(item) => buffer.push_front(item),
                None => {},
            }
        }
        HistoryBuffer { capacity, buffer, now }
    }

    /// A history of one value.
    pub fn snapshot(now: TimeStamp, value: T) -> (result: Self)
        ensures
            result@.capacity == 1,
            result@.items == seq![value],
            result@.now == now,
    {
        let mut buffer: VecDeque<T> = VecDeque::new();
        buffer.push_back(value);
        HistoryBuffer { capacity: 1, buffer, now }
    }

    /// An empty history that keeps up to `capacity` values.
    pub fn with_capacity(capacity: usize) -> (result: Self)
        ensures
            result@.capacity == capacity,
            result@.items == Seq::<T>::empty(),
            result@.now.0 == 0,
    {
        HistoryBuffer { capacity, buffer: VecDeque::new(), now: TimeStamp(0) }
    }

    /// An empty history that gives up no value.
    pub fn without_capacity() -> (result: Self)
        ensures
            result@.capacity == usize::MAX,
            result@.items == Seq::<T>::empty(),
            result@.now.0 == 0,
    {
        Self::with_capacity(usize::MAX)
    }

    pub fn capacity(&self) -> (result: usize)
        ensures
            result == self@.capacity,
    {
        self.capacity
    }

    /// Changes how many values are kept, giving up the earliest where there are more.
    pub fn set_capacity(&mut self, capacity: usize)
        ensures
            final(self)@.capacity == capacity,
            final(self)@.now == old(self)@.now,
            final(self)@.items == old(self)@.items.skip(
                if old(self)@.items.len() > capacity {
                    old(self)@.items.len() - capacity
                } else {
                    0
                },
            ),
    {
        self.capacity = capacity;
        keep_last(&mut self.buffer, capacity);
    }

    /// The tick of the last value.
    pub fn now(&self) -> (result: Option<TimeStamp>)
        ensures
            result == if self@.items.len() == 0 {
                None::<TimeStamp>
            } else {
                Some(self@.now)
            },
    {
        if self.is_empty() {
            None
        } else {
            Some(self.now)
        }
    }

    /// The tick of the first value.
    pub fn past(&self) -> (result: Option<TimeStamp>)
        ensures
            result == if self@.items.len() == 0 {
                None::<TimeStamp>
            } else {
                Some(TimeStamp(self@.first_tick()))
            },
    {
        if self.is_empty() {
            None
        } else {
            Some(TimeStamp(self.now.0.saturating_sub((self.buffer.len() - 1) as u64)))
        }
    }

    /// The ticks of the first and the last value.
    pub fn range(&self) -> (result: Option<RangeInclusive<TimeStamp>>)
        ensures
            result is None <==> self@.items.len() == 0,
            result matches Some(range) ==> {
                &&& range@.start.0 == self@.first_tick()
                &&& range@.end == self@.now
                &&& !range@.exhausted
            },
    {
        match self.past() {
            Some(past) => Some(RangeInclusive::new(past, self.now)),
            None => None,
        }
    }

    pub fn is_empty(&self) -> (result: bool)
        ensures
            result == (self@.items.len() == 0),
    {
        self.buffer.len() == 0
    }

    pub fn len(&self) -> (result: usize)
        ensures
            result == self@.items.len(),
    {
        self.buffer.len()
    }

    /// The values whose ticks lie in `range`, with their ticks, in order of time.
    pub fn iter(&self, range: TickRange) -> (result: Vec<(TimeStamp, &T)>)
        ensures
            result@.len() == self@.entries(range).len(),
            forall|i: int|
                0 <= i < result@.len() ==> {
                    &&& (#[trigger] result@[i]).0 == self@.entries(range)[i].0
                    &&& *result@[i].1 == self@.entries(range)[i].1
                },
    {
        let mut result: Vec<(TimeStamp, &T)> = Vec::new();
        let ghost all = self@.all_entries();
        let ghost wanted = |entry: (TimeStamp, T)| range.spec_contains(entry.0);
        assert(all.take(0) =~= Seq::empty());
        assert(all.take(0).filter(wanted) =~= Seq::empty()) by {
            reveal(Seq::filter);
        }
        match self.past() {
            Some(past) => {
                let mut index: usize = 0;
                while index < self.buffer.len()
                    invariant
                        index <= self.buffer@.len(),
                        past.0 == self@.first_tick(),
                        all == self@.all_entries(),
                        wanted == (|entry: (TimeStamp, T)| range.spec_contains(entry.0)),
                        result@.len() == all.take(index as int).filter(wanted).len(),
                        forall|i: int|
                            0 <= i < result@.len() ==> {
                                &&& (#[trigger] result@[i]).0 == all.take(index as int).filter(
                                    wanted,
                                )[i].0
                                &&& *result@[i].1 == all.take(index as int).filter(wanted)[i].1
                            },
                    decreases self.buffer@.len() - index,
                {
                    let timestamp = past + index as u64;
                    proof {
                        let next = all.take(index + 1);
                        assert(next.drop_last() =~= all.take(index as int));
                        assert(next.last() == (timestamp, self@.items[index as int]));
                        reveal(Seq::filter);
                    }
                    if range.contains(timestamp) {
                        result.push((timestamp, &self.buffer[index]));
                    }
                    index = index + 1;
                }
                assert(all.take(index as int) =~= all);
            },
            None => {
                assert(all =~= all.take(0));
            },
        }
        result
    }

    /// Puts `value` at `timestamp`. The window stretches there if it has to, and gives up
    /// what does not fit at the other end.
    pub fn set(&mut self, timestamp: TimeStamp, value: T)
        requires
            old(self)@.accepts(timestamp),
        ensures
            old(self)@.set_to(timestamp, value, final(self)@),
    {
        let ghost before = self@;
        match self.past() {
            Some(past) => {
                if timestamp.0 < past.0 {
                    let gap: u64 = past.0 - timestamp.0;
                    if gap >= self.capacity as u64 {
                        self.buffer = copies(&value, self.capacity);
                    } else {
                        push_front_copies(&mut self.buffer, &value, gap as usize);
                        let ghost stretched = self.buffer@;
                        assert forall|i: int| gap <= i < stretched.len() implies #[trigger]
                            stretched[i] == before.items[i - gap] by {
                            assert(stretched.skip(gap as int)[i - gap] == stretched[i]);
                        }
                        self.buffer.truncate(self.capacity);
                    }
                    let length: usize = self.buffer.len();
                    let reach = timestamp + if length == 0 { 0 } else { (length - 1) as u64 };
                    if reach.0 < self.now.0 {
                        self.now = reach;
                    }
                    assert(before.set_before(timestamp, value, self@));
                } else if timestamp.0 > self.now.0 {
                    let gap: u64 = timestamp.0 - self.now.0;
                    if gap >= self.capacity as u64 {
                        let last: usize = self.buffer.len() - 1;
                        self.buffer = copies(&self.buffer[last], self.capacity - 1);
                        self.buffer.push_back(value);
                    } else {
                        repeat_last(&mut self.buffer, (gap - 1) as usize);
                        let ghost stretched = self.buffer@;
                        assert forall|i: int| 0 <= i < before.items.len() implies #[trigger]
                            stretched[i] == before.items[i] by {
                            assert(stretched.take(before.items.len() as int)[i] == stretched[i]);
                        }
                        self.buffer.push_back(value);
                        keep_last(&mut self.buffer, self.capacity);
                    }
                    self.now = timestamp;
                    assert(before.set_behind(timestamp, value, self@));
                } else {
                    assert(timestamp.0 - past.0 < self.buffer.len());
                    let index: usize = (timestamp.0 - past.0) as usize;
                    match deque_get_mut(&mut self.buffer, index) {
                        Some(element) => {
                            *element = value;
                        },
                        None => {},
                    }
                }
            },
            None => {
                self.buffer.push_back(value);
                self.now = timestamp;
                assert(self@.items =~= seq![value]);
            },
        }
    }

    /// Clones the values of `range` into `other`, tick by tick.
    pub fn clone_to(&self, other: &mut Self, range: TickRange)
        requires
            old(other)@.accepts_all(self@.entries(range)),
        ensures
            old(other)@.set_all(self@.entries(range), final(other)@),
    {
        let entries = self.iter(range);
        let ghost wanted = self@.entries(range);
        let ghost start = other@;
        let mut index: usize = 0;
        while index < entries.len()
            invariant
                index <= entries@.len() == wanted.len(),
                forall|i: int|
                    0 <= i < entries@.len() ==> {
                        &&& (#[trigger] entries@[i]).0 == wanted[i].0
                        &&& *entries@[i].1 == wanted[i].1
                    },
                start.set_all(wanted.take(index as int), other@),
                start.accepts_all(wanted),
            decreases entries@.len() - index,
        {
            let (timestamp, value): (TimeStamp, &T) = entries[index];
            let copy = value.clone();
            let ghost before = other@;
            other.set(timestamp, copy);
            proof {
                let next = wanted.take(index + 1);
                assert(next.drop_last() =~= wanted.take(index as int));
                assert(before.set_to(next.last().0, copy, other@));
                assert(start.set_all(next, other@));
            }
            index = index + 1;
        }
        assert(wanted.take(index as int) =~= wanted);
    }

    /// Moves the end of the window to `timestamp`. Says whether there was a window to move.
    pub fn time_travel_to(&mut self, timestamp: TimeStamp) -> (result: bool)
        ensures
            result == (old(self)@.items.len() > 0),
            old(self)@.travelled_to(timestamp, final(self)@),
    {
        let ghost before = self@;
        let result = match self.past() {
            Some(past) => {
                if timestamp.0 < past.0 {
                    self.buffer.clear();
                } else if timestamp.0 < self.now.0 {
                    assert(timestamp.0 - past.0 < self.buffer.len() - 1);
                    let kept: usize = (timestamp.0 - past.0) as usize + 1;
                    self.buffer.truncate(kept);
                } else if timestamp.0 > self.now.0 {
                    let gap: u64 = timestamp.0 - self.now.0;
                    if gap >= self.capacity as u64 {
                        let last: usize = self.buffer.len() - 1;
                        self.buffer = copies(&self.buffer[last], self.capacity);
                    } else {
                        repeat_last(&mut self.buffer, gap as usize);
                        let ghost stretched = self.buffer@;
                        assert forall|i: int| 0 <= i < before.items.len() implies #[trigger]
                            stretched[i] == before.items[i] by {
                            assert(stretched.take(before.items.len() as int)[i] == stretched[i]);
                        }
                        keep_last(&mut self.buffer, self.capacity);
                    }
                }
                true
            },
            None => false,
        };
        self.now = timestamp;
        assert(before.items.len() == 0 || timestamp.0 < before.first_tick() ==> self@.items
            =~= Seq::empty());
        result
    }

    /// Stretches the window to `timestamp` if it does not hold it: with what `default` makes
    /// where the window is empty or begins later, else with what the window ended with.
    pub fn ensure_timestamp<F: Fn() -> T>(&mut self, timestamp: TimeStamp, default: F)
        requires
            default.requires(()),
            old(self)@.accepts(timestamp),
        ensures
            old(self)@.items.len() == 0 || timestamp.0 < old(self)@.first_tick() ==> exists|value: T|
                default.ensures((), value) && #[trigger] old(self)@.set_to(
                    timestamp,
                    value,
                    final(self)@,
                ),
            old(self)@.items.len() > 0 && timestamp.0 > old(self)@.now.0 ==> exists|value: T|
                cloned::<T>(old(self)@.items.last(), value) && #[trigger] old(self)@.set_to(
                    timestamp,
                    value,
                    final(self)@,
                ),
            old(self)@.items.len() > 0 && old(self)@.first_tick() <= timestamp.0
                <= old(self)@.now.0 ==> final(self)@ == old(self)@,
    {
        match self.past() {
            Some(past) => {
                if timestamp.0 < past.0 {
                    let value = default();
                    self.set(timestamp, value);
                } else if timestamp.0 > self.now.0 {
                    let value = self.buffer[self.buffer.len() - 1].clone();
                    self.set(timestamp, value);
                }
            },
            None => {
                let value = default();
                self.set(timestamp, value);
            },
        }
    }

    /// The value at `timestamp`.
    pub fn get(&self, timestamp: TimeStamp) -> (result: Option<&T>)
        ensures
            result is None <==> self@.at(timestamp) is None,
            result matches Some(value) ==> self@.at(timestamp) == Some(*value),
    {
        match self.past() {
            Some(past) => {
                if timestamp.0 >= past.0 && timestamp.0 - past.0 < self.buffer.len() as u64 {
                    Some(&self.buffer[(timestamp.0 - past.0) as usize])
                } else {
                    None
                }
            },
            None => None,
        }
    }

    /// The value at `timestamp`, to be changed in place.
    pub fn get_mut(&mut self, timestamp: TimeStamp) -> (result: Option<&mut T>)
        ensures
            result is None <==> old(self)@.at(timestamp) is None,
            result is None ==> final(self)@ == old(self)@,
            result matches Some(value) ==> {
                &&& old(self)@.at(timestamp) == Some(*value)
                &&& final(self)@.capacity == old(self)@.capacity
                &&& final(self)@.now == old(self)@.now
                &&& final(self)@.items == old(self)@.items.update(
                    timestamp.0 - old(self)@.first_tick(),
                    *final(value),
                )
            },
    {
        match self.past() {
            Some(past) => {
                if timestamp.0 >= past.0 && timestamp.0 - past.0 < self.buffer.len() as u64 {
                    deque_get_mut(&mut self.buffer, (timestamp.0 - past.0) as usize)
                } else {
                    None
                }
            },
            None => None,
        }
    }

    /// The value at `timestamp`, or else the one at the nearer end of the window.
    pub fn get_extrapolated(&self, timestamp: TimeStamp) -> (result: Option<&T>)
        ensures
            result is None <==> self@.extrapolated(timestamp) is None,
            result matches Some(value) ==> self@.extrapolated(timestamp) == Some(*value),
    {
        match self.past() {
            Some(past) => {
                if timestamp.0 < past.0 {
                    Some(&self.buffer[0])
                } else if timestamp.0 > self.now.0 {
                    Some(&self.buffer[self.buffer.len() - 1])
                } else {
                    self.get(timestamp)
                }
            },
            None => None,
        }
    }

    /// Forgets all values.
    pub fn clear(&mut self)
        ensures
            final(self)@.capacity == old(self)@.capacity,
            final(self)@.items == Seq::<T>::empty(),
            final(self)@.now.0 == 0,
    {
        self.buffer.clear();
        self.now = TimeStamp(0);
    }

    /// The first tick that both histories cover and at which their values differ.
    pub fn divergence(&self, other: &Self) -> (result: Option<TimeStamp>) where T: PartialEq
        ensures
            self@.diverges_from(other@, result),
    {
        match (self.past(), other.past()) {
            (Some(mine), Some(theirs)) => {
                let start: u64 = if mine.0 >= theirs.0 {
                    mine.0
                } else {
                    theirs.0
                };
                let end: u64 = if self.now.0 <= other.now.0 {
                    self.now.0
                } else {
                    other.now.0
                };
                let mut tick: u64 = start;
                while tick <= end
                    invariant
                        start == if mine.0 >= theirs.0 {
                            mine.0
                        } else {
                            theirs.0
                        },
                        end == if self@.now.0 <= other@.now.0 {
                            self@.now.0
                        } else {
                            other@.now.0
                        },
                        self@.items.len() > 0,
                        other@.items.len() > 0,
                        mine.0 == self@.first_tick(),
                        theirs.0 == other@.first_tick(),
                        start <= tick,
                        T::obeys_eq_spec() ==> forall|earlier: TimeStamp|
                            earlier.0 < tick && self@.covers_with(other@, earlier)
                                ==> !(#[trigger] self@.differs_at(other@, earlier)),
                    decreases end - tick + 1,
                {
                    let timestamp = TimeStamp(tick);
                    let same = match (self.get(timestamp), other.get(timestamp)) {
                        (Some(a), Some(b)) => *a == *b,
                        (None, None) => true,
                        _ => false,
                    };
                    assert(T::obeys_eq_spec() ==> same == !self@.differs_at(other@, timestamp));
                    if !same {
                        return Some(timestamp);
                    }
                    if tick == end {
                        return None;
                    }
                    tick = tick + 1;
                }
                None
            },
            _ => None,
        }
    }

    /// Drops the values whose ticks lie outside `range`.
    pub fn set_range(&mut self, range: TickRange)
        requires
            old(self)@.consistent(),
        ensures
            final(self)@.consistent(),
            final(self)@.capacity == old(self)@.capacity,
            final(self)@.all_entries() == old(self)@.entries(range),
            final(self)@.items.len() == 0 ==> final(self)@.now == old(self)@.now,
    {
        let ghost before = self@;
        let ghost all = before.all_entries();
        let ghost wanted = |entry: (TimeStamp, T)| range.spec_contains(entry.0);
        let ghost mut start: int = 0;
        let ghost mut end: int = all.len() as int;
        let now = self.now;
        while self.buffer.len() > 0 && range.ends_before(self.now)
            invariant
                before.consistent(),
                before.capacity == self.capacity,
                all == before.all_entries(),
                0 <= end <= all.len(),
                self.buffer@ =~= before.items.take(end),
                end > 0 ==> self.now.0 == before.now.0 - (all.len() - end),
                forall|i: int| end <= i < all.len() ==> !range.spec_contains((#[trigger] all[i]).0),
            decreases self.buffer@.len(),
        {
            assert(all[end - 1].0 == self.now);
            let _ = self.buffer.pop_back();
            proof {
                end = end - 1;
            }
            if self.buffer.len() > 0 {
                self.now = self.now - 1;
            }
        }
        let mut first: u64 = match self.past() {
            Some(past) => past.0,
            None => 0,
        };
        assert(end > 0 ==> first == before.first_tick());
        while self.buffer.len() > 0 && range.starts_after(TimeStamp(first))
            invariant
                before.consistent(),
                before.capacity == self.capacity,
                all == before.all_entries(),
                0 <= start <= end <= all.len(),
                self.buffer@ =~= before.items.subrange(start, end),
                end > 0 ==> self.now.0 == before.now.0 - (all.len() - end),
                start < end ==> first == before.first_tick() + start,
                end > 0 ==> before.first_tick() + all.len() == before.now.0 + 1,
                forall|i: int| end <= i < all.len() ==> !range.spec_contains((#[trigger] all[i]).0),
                forall|i: int| 0 <= i < start ==> !range.spec_contains((#[trigger] all[i]).0),
            decreases self.buffer@.len(),
        {
            assert(all[start].0.0 == first);
            let _ = self.buffer.pop_front();
            proof {
                start = start + 1;
            }
            if self.buffer.len() > 0 {
                first = first + 1;
            }
        }
        if self.buffer.len() == 0 {
            self.now = now;
        }
        proof {
            if start < end {
                assert(all[start].0.0 == first);
                assert(all[end - 1].0 == self.now);
                assert forall|i: int| start <= i < end implies range.spec_contains(
                    (#[trigger] all[i]).0,
                ) by {
                    assert(all[i].0.0 == before.first_tick() + i);
                }
            }
            assert forall|i: int| 0 <= i < all.len() implies (wanted(#[trigger] all[i]) <==> start
                <= i < end) by {}
            lemma_filter_is_subrange(all, wanted, start, end);
            assert(self@.all_entries() =~= all.subrange(start, end));
        }
    }

    /// Whether there is a value at `timestamp`.
    pub fn has(&self, timestamp: TimeStamp) -> (result: bool)
        ensures
            result == (self@.at(timestamp) is Some),
    {
        self.get(timestamp).is_some()
    }
}

/// What reading the head of a written stretch of history gives: whether it is compressed,
/// and its first and last tick.
pub open spec fn parse_stretch_head(bytes: Seq<u8>) -> (Result<(bool, u64, u64), Error>, nat) {
    let head = <(bool, u64, u64) as Replicable>::parse((false, 0u64, 0u64), bytes);
    match head.error {
        None => (Ok(head.model), head.consumed),
        Some(error) => (Err(error), head.consumed),
    }
}

/// What reading `count` values of a stretch of history comes to. In a compressed stretch each
/// value is behind a flag, and a value that was not written is the same as the one before.
pub open spec fn parse_stretch<T: DefaultReplicable>(
    compressed: bool,
    bytes: Seq<u8>,
    count: nat,
) -> Applied<Seq<T::Model>>
    decreases count,
{
    if count == 0 {
        Applied { model: Seq::empty(), error: None, consumed: 0 }
    } else {
        let before = parse_stretch::<T>(compressed, bytes, (count - 1) as nat);
        if before.error is Some {
            before
        } else {
            let next = parse_stretch_step::<T>(
                compressed,
                bytes.skip(before.consumed as int),
                if count == 1 {
                    T::blank()
                } else {
                    before.model.last()
                },
            );
            Applied {
                model: if next.error is None {
                    before.model.push(next.model)
                } else {
                    before.model
                },
                error: next.error,
                consumed: before.consumed + next.consumed,
            }
        }
    }
}

/// What reading one value of a stretch of history comes to, behind `last`.
pub open spec fn parse_stretch_step<T: DefaultReplicable>(
    compressed: bool,
    bytes: Seq<u8>,
    last: T::Model,
) -> Applied<T::Model> {
    if compressed {
        let flag = parse_bool(bytes);
        match flag.result {
            Ok(changed) => if changed {
                let value = T::parse(last, bytes.skip(1));
                Applied { model: value.model, error: value.error, consumed: 1 + value.consumed }
            } else {
                Applied { model: last, error: None, consumed: 1 }
            },
            Err(error) => Applied { model: last, error: Some(error), consumed: flag.consumed },
        }
    } else {
        T::parse(T::blank(), bytes)
    }
}

proof fn lemma_parse_stretch<T: DefaultReplicable>(
    compressed: bool,
    bytes: Seq<u8>,
    count: nat,
    more: nat,
)
    requires
        count <= more,
    ensures
        parse_stretch::<T>(compressed, bytes, count).consumed <= bytes.len(),
        parse_stretch::<T>(compressed, bytes, count).model.len() <= count,
        parse_stretch::<T>(compressed, bytes, count).error is None ==> parse_stretch::<T>(
            compressed,
            bytes,
            count,
        ).model.len() == count,
        parse_stretch::<T>(compressed, bytes, count).error is Some ==> parse_stretch::<T>(
            compressed,
            bytes,
            more,
        ) == parse_stretch::<T>(compressed, bytes, count),
    decreases more,
{
    if count < more {
        lemma_parse_stretch::<T>(compressed, bytes, count, (more - 1) as nat);
    } else if count > 0 {
        lemma_parse_stretch::<T>(compressed, bytes, (count - 1) as nat, (count - 1) as nat);
        let before = parse_stretch::<T>(compressed, bytes, (count - 1) as nat);
        let rest = bytes.skip(before.consumed as int);
        let last = if count == 1 {
            T::blank()
        } else {
            before.model.last()
        };
        if compressed {
            if rest.len() > 0 {
                T::parse_is_within(last, rest.skip(1));
            }
        } else {
            T::parse_is_within(T::blank(), rest);
        }
    }
}

/// How many ticks there are from `from` to `to`, both included.
pub open spec fn tick_count(from: u64, to: u64) -> nat {
    if from <= to {
        (to - from + 1) as nat
    } else {
        0
    }
}

impl<T: Clone + Replicable> HistoryView<T> {
    /// What writing the values of `count` ticks from `from` on comes to.
    pub open spec fn emit_values(self, from: u64, count: nat) -> Emitted
        decreases count,
    {
        if count == 0 {
            Emitted::nothing()
        } else {
            self.emit_values(from, (count - 1) as nat).followed_by(
                match self.at(TimeStamp((from + count - 1) as u64)) {
                    Some(value) => value.emit(),
                    None => Emitted {
                        bytes: Seq::empty(),
                        error: Some(Error::MissingValue((from + count - 1) as u64)),
                    },
                },
            )
        }
    }

    /// What writing the values of some ticks from `from` on comes to, where `flags` tells for
    /// each tick whether its value is written or only said to be the one before.
    pub open spec fn emit_flagged(self, from: u64, flags: Seq<bool>) -> Emitted
        decreases flags.len(),
    {
        if flags.len() == 0 {
            Emitted::nothing()
        } else {
            let tick = (from + flags.len() - 1) as u64;
            self.emit_flagged(from, flags.drop_last()).followed_by(
                match self.at(TimeStamp(tick)) {
                    Some(value) => if flags.last() {
                        Emitted::of(seq![bool_byte(true)]).followed_by(value.emit())
                    } else {
                        Emitted::of(seq![bool_byte(false)])
                    },
                    None => Emitted {
                        bytes: Seq::empty(),
                        error: Some(Error::MissingValue(tick)),
                    },
                },
            )
        }
    }

    /// The first and the last tick of `range` that the window reaches over.
    pub open spec fn stretch(self, range: TickRange) -> (u64, u64) {
        let past = if self.items.len() == 0 {
            0
        } else {
            self.first_tick()
        };
        let now = if self.items.len() == 0 {
            0
        } else {
            self.now.0
        };
        let first = range.first_tick(TimeStamp(past)).0;
        let last = range.last_tick(TimeStamp(now)).0;
        (
            if first >= past {
                first
            } else {
                past
            },
            if last <= self.now.0 {
                last
            } else {
                self.now.0
            },
        )
    }

    /// What writing a stretch of history comes to: its head, and behind it all values.
    pub open spec fn emit_plain(self, stretch: (u64, u64)) -> Emitted {
        (false, stretch.0, stretch.1).emit().followed_by(
            self.emit_values(stretch.0, tick_count(stretch.0, stretch.1)),
        )
    }

    /// What writing a stretch of history comes to: its head, and behind it the values that
    /// `flags` pick.
    pub open spec fn emit_compressed(self, stretch: (u64, u64), flags: Seq<bool>) -> Emitted {
        (true, stretch.0, stretch.1).emit().followed_by(self.emit_flagged(stretch.0, flags))
    }
}

/// The last place before `end` whose flag is set.
pub open spec fn last_set(flags: Seq<bool>, end: int) -> Option<int>
    decreases end,
{
    if end <= 0 {
        None
    } else if flags[end - 1] {
        Some(end - 1)
    } else {
        last_set(flags, end - 1)
    }
}

impl<T: Clone + PartialEq> HistoryView<T> {
    /// Whether `flags` are set exactly at the first tick and where a value differs from the
    /// last one that was written.
    pub open spec fn flags_tell_changes(self, from: u64, flags: Seq<bool>) -> bool {
        forall|i: int| 0 <= i < flags.len() ==> #[trigger] flags[i] == self.is_change(from, flags, i)
    }

    /// Whether the value at place `i` differs from the last one that was written before it.
    pub open spec fn is_change(self, from: u64, flags: Seq<bool>, i: int) -> bool {
        match last_set(flags, i) {
            None => true,
            Some(earlier) => match (
                self.at(TimeStamp((from + earlier) as u64)),
                self.at(TimeStamp((from + i) as u64)),
            ) {
                (Some(a), Some(b)) => !a.eq_spec(&b),
                _ => true,
            },
        }
    }
}

impl<T: Clone> HistoryView<T> {
    /// Whether `after` is what putting `items` at the ticks from `from` on, one after the
    /// other, makes of the history.
    pub open spec fn put_all(self, from: u64, items: Seq<T>, after: Self) -> bool
        decreases items.len(),
    {
        if items.len() == 0 {
            after == self
        } else {
            exists|between: Self|
                {
                    &&& self.put_all(from, items.drop_last(), between)
                    &&& #[trigger] between.set_to(
                        TimeStamp((from + items.len() - 1) as u64),
                        items.last(),
                        after,
                    )
                }
        }
    }

    /// Whether each of `count` values finds room when they are put at the ticks from `from` on.
    pub open spec fn accepts_ticks(self, from: u64, count: nat) -> bool {
        forall|items: Seq<T>, between: Self|
            items.len() < count && #[trigger] self.put_all(from, items, between)
                ==> between.accepts(TimeStamp((from + items.len()) as u64))
    }

    /// A history with any capacity takes whatever is put in.
    pub proof fn law_room_for_ticks(self, from: u64, count: nat)
        requires
            self.capacity > 0,
        ensures
            self.accepts_ticks(from, count),
    {
        assert forall|items: Seq<T>, between: Self|
            items.len() < count && #[trigger] self.put_all(from, items, between) implies between.accepts(
            TimeStamp((from + items.len()) as u64),
        ) by {
            self.lemma_put_all_keeps_capacity(from, items, between);
        }
    }

    /// Putting values in does not change the capacity.
    pub proof fn lemma_put_all_keeps_capacity(self, from: u64, items: Seq<T>, after: Self)
        requires
            self.put_all(from, items, after),
        ensures
            after.capacity == self.capacity,
        decreases items.len(),
    {
        if items.len() > 0 {
            let between = choose|between: Self|
                {
                    &&& self.put_all(from, items.drop_last(), between)
                    &&& #[trigger] between.set_to(
                        TimeStamp((from + items.len() - 1) as u64),
                        items.last(),
                        after,
                    )
                };
            self.lemma_put_all_keeps_capacity(from, items.drop_last(), between);
        }
    }
}

/// Whether `item` is a value with what matters being `model`, or a clone of one if `copied`.
pub open spec fn stands_for<T: Clone + Replicable>(item: T, model: T::Model, copied: bool) -> bool {
    if copied {
        exists|value: T| value.model() == model && #[trigger] cloned::<T>(value, item)
    } else {
        item.model() == model
    }
}

impl<T: Clone + DefaultReplicable> HistoryView<T> {
    /// Whether the history has room for the stretch that `bytes` hold.
    pub open spec fn accepts_stretch(self, bytes: Seq<u8>) -> bool {
        match parse_stretch_head(bytes).0 {
            Ok((_, from, to)) => self.accepts_ticks(from, tick_count(from, to)),
            Err(_) => true,
        }
    }

    /// Whether `after` and `error` are what reading a stretch from `bytes` into the history
    /// comes to, and `consumed` is how many bytes it takes. The values before a failure are
    /// put in.
    pub open spec fn reads_stretch(
        self,
        bytes: Seq<u8>,
        after: Self,
        error: Option<Error>,
        consumed: nat,
    ) -> bool {
        let head = parse_stretch_head(bytes);
        match head.0 {
            Err(reason) => after == self && error == Some(reason) && consumed == head.1,
            Ok((compressed, from, to)) => {
                let values = parse_stretch::<T>(
                    compressed,
                    bytes.skip(head.1 as int),
                    tick_count(from, to),
                );
                &&& error == values.error
                &&& consumed == head.1 + values.consumed
                &&& exists|items: Seq<T>|
                    {
                        &&& items.len() == values.model.len()
                        &&& forall|i: int|
                            0 <= i < items.len() ==> stands_for(
                                #[trigger] items[i],
                                values.model[i],
                                compressed,
                            )
                        &&& #[trigger] self.put_all(from, items, after)
                    }
            },
        }
    }
}

impl<T: Clone + Replicable> HistoryBuffer<T> {
    /// Writes the values of the ticks of `range`, as far as the window reaches over them. With
    /// `compress_delta` a value is written only where it differs from the last one written.
    pub fn collect_changes(&self, buffer: &mut Buffer, range: TickRange, compress_delta: bool) -> (result:
        Result<(), Error>) where T: PartialEq
        ensures
            !compress_delta ==> {
                let written = self@.emit_plain(self@.stretch(range));
                &&& final(buffer)@ == old(buffer)@.written(written.bytes)
                &&& failure(result) == written.error
            },
            compress_delta ==> exists|flags: Seq<bool>|
                {
                    let written = #[trigger] self@.emit_compressed(self@.stretch(range), flags);
                    &&& flags.len() <= tick_count(self@.stretch(range).0, self@.stretch(range).1)
                    &&& written.error is None ==> flags.len() == tick_count(
                        self@.stretch(range).0,
                        self@.stretch(range).1,
                    )
                    &&& flags.len() > 0 ==> flags[0]
                    &&& T::obeys_eq_spec() ==> self@.flags_tell_changes(
                        self@.stretch(range).0,
                        flags,
                    )
                    &&& final(buffer)@ == old(buffer)@.written(written.bytes)
                    &&& failure(result) == written.error
                },
    {
        let ghost before = buffer@;
        let past = match self.past() {
            Some(past) => past,
            None => TimeStamp(0),
        };
        let now = match self.now() {
            Some(now) => now,
            None => TimeStamp(0),
        };
        let first = range.first_from(past);
        let last = range.last_to(now);
        let from: u64 = if first.0 >= past.0 {
            first.0
        } else {
            past.0
        };
        let to: u64 = if last.0 <= self.now.0 {
            last.0
        } else {
            self.now.0
        };
        let head = (compress_delta, from, to);
        let _ = head.collect_changes(buffer);
        assert(head.emit().error is None);
        assert((from, to) == self@.stretch(range));
        if compress_delta {
            let result = self.collect_flagged(
                buffer,
                from,
                to,
                Ghost(before),
                Ghost(head.emit().bytes),
            );
            proof {
                let flags = choose|flags: Seq<bool>|
                    {
                        let written = #[trigger] self@.emit_flagged(from, flags);
                        &&& flags.len() <= tick_count(from, to)
                        &&& written.error is None ==> flags.len() == tick_count(from, to)
                        &&& flags.len() > 0 ==> flags[0]
                        &&& T::obeys_eq_spec() ==> self@.flags_tell_changes(from, flags)
                        &&& buffer@ == before.written(head.emit().bytes + written.bytes)
                        &&& failure(result) == written.error
                    };
                assert(self@.emit_compressed((from, to), flags).bytes == head.emit().bytes
                    + self@.emit_flagged(from, flags).bytes);
            }
            result
        } else {
            self.collect_values(buffer, from, to, Ghost(before), Ghost(head.emit().bytes))
        }
    }

    fn collect_values(
        &self,
        buffer: &mut Buffer,
        from: u64,
        to: u64,
        Ghost(start): Ghost<crate::buffer::BufferView>,
        Ghost(head): Ghost<Seq<u8>>,
    ) -> (result: Result<(), Error>)
        requires
            old(buffer)@ == start.written(head),
        ensures
            final(buffer)@ == start.written(
                head + self@.emit_values(from, tick_count(from, to)).bytes,
            ),
            failure(result) == self@.emit_values(from, tick_count(from, to)).error,
    {
        let ghost total = tick_count(from, to);
        let mut done: u64 = 0;
        proof {
            start.written(head).lemma_written_nothing();
            start.lemma_written_twice(head, self@.emit_values(from, total).bytes);
        }
        while from <= to && done <= to - from
            invariant
                total == tick_count(from, to),
                done <= total,
                self@.emit_values(from, done as nat).error is None,
                buffer@ == start.written(head).written(self@.emit_values(from, done as nat).bytes),
                start.written(head).written(self@.emit_values(from, total).bytes)
                    == start.written(head + self@.emit_values(from, total).bytes),
            decreases total - done,
        {
            let tick: u64 = from + done;
            let ghost so_far = self@.emit_values(from, done as nat);
            proof {
                self@.lemma_emit_values_failed(from, (done + 1) as nat, total);
            }
            match self.get(TimeStamp(tick)) {
                Some(value) => {
                    proof {
                        start.written(head).lemma_written_twice(so_far.bytes, value.emit().bytes);
                    }
                    match value.collect_changes(buffer) {
                        Ok(_) => {},
                        Err(error) => {
                            return Err(error);
                        },
                    }
                },
                None => {
                    assert(so_far.bytes + Seq::<u8>::empty() =~= so_far.bytes);
                    return Err(Error::MissingValue(tick));
                },
            }
            if done == u64::MAX {
                assert(total == done + 1);
                return Ok(());
            }
            done = done + 1;
        }
        Ok(())
    }

    fn collect_flagged(
        &self,
        buffer: &mut Buffer,
        from: u64,
        to: u64,
        Ghost(start): Ghost<crate::buffer::BufferView>,
        Ghost(head): Ghost<Seq<u8>>,
    ) -> (result: Result<(), Error>) where T: PartialEq
        requires
            old(buffer)@ == start.written(head),
        ensures
            exists|flags: Seq<bool>|
                {
                    let written = #[trigger] self@.emit_flagged(from, flags);
                    &&& flags.len() <= tick_count(from, to)
                    &&& written.error is None ==> flags.len() == tick_count(from, to)
                    &&& flags.len() > 0 ==> flags[0]
                    &&& T::obeys_eq_spec() ==> self@.flags_tell_changes(from, flags)
                    &&& final(buffer)@ == start.written(head + written.bytes)
                    &&& failure(result) == written.error
                },
    {
        let ghost total = tick_count(from, to);
        let ghost mut flags: Seq<bool> = Seq::empty();
        let mut done: u64 = 0;
        let mut written_last: Option<&T> = None;
        proof {
            start.written(head).lemma_written_nothing();
        }
        while from <= to && done <= to - from
            invariant
                total == tick_count(from, to),
                done <= total,
                flags.len() == done,
                flags.len() > 0 ==> flags[0],
                self@.emit_flagged(from, flags).error is None,
                buffer@ == start.written(head).written(self@.emit_flagged(from, flags).bytes),
                T::obeys_eq_spec() ==> self@.flags_tell_changes(from, flags),
                match (written_last, last_set(flags, done as int)) {
                    (None, None) => true,
                    (Some(value), Some(place)) => self@.at(TimeStamp((from + place) as u64))
                        == Some(*value),
                    _ => false,
                },
            decreases total - done,
        {
            let tick: u64 = from + done;
            let ghost so_far = self@.emit_flagged(from, flags);
            match self.get(TimeStamp(tick)) {
                Some(value) => {
                    let changed: bool = match written_last {
                        None => true,
                        Some(last) => !(*last == *value),
                    };
                    let ghost longer = flags.push(changed);
                    proof {
                        assert(longer.drop_last() =~= flags);
                        lemma_last_set_prefix(flags, longer, done as int);
                        if T::obeys_eq_spec() {
                            self@.lemma_flags_grow(from, flags, changed);
                        }
                    }
                    if changed {
                        proof {
                            let flag = seq![bool_byte(true)];
                            start.written(head).lemma_written_twice(so_far.bytes, flag);
                            start.written(head).lemma_written_twice(
                                so_far.bytes + flag,
                                value.emit().bytes,
                            );
                            assert(so_far.bytes + flag + value.emit().bytes =~= so_far.bytes + (flag
                                + value.emit().bytes));
                            start.lemma_written_twice(
                                head,
                                self@.emit_flagged(from, longer).bytes,
                            );
                        }
                        write_bool(buffer, true);
                        match value.collect_changes(buffer) {
                            Ok(_) => {},
                            Err(error) => {
                                return Err(error);
                            },
                        }
                        written_last = Some(value);
                    } else {
                        proof {
                            start.written(head).lemma_written_twice(
                                so_far.bytes,
                                seq![bool_byte(false)],
                            );
                        }
                        write_bool(buffer, false);
                    }
                    proof {
                        flags = longer;
                    }
                },
                None => {
                    proof {
                        let longer = flags.push(done == 0 || self@.is_change(from, flags, done as int));
                        assert(longer.drop_last() =~= flags);
                        lemma_last_set_prefix(flags, longer, done as int);
                        if T::obeys_eq_spec() {
                            self@.lemma_flags_grow(
                                from,
                                flags,
                                self@.is_change(from, flags, done as int),
                            );
                        }
                        assert(so_far.bytes + Seq::<u8>::empty() =~= so_far.bytes);
                        start.lemma_written_twice(head, so_far.bytes);
                        assert(self@.emit_flagged(from, longer).error is Some);
                    }
                    return Err(Error::MissingValue(tick));
                },
            }
            if done == u64::MAX {
                assert(total == done + 1);
                proof {
                    start.lemma_written_twice(head, self@.emit_flagged(from, flags).bytes);
                }
                return Ok(());
            }
            done = done + 1;
        }
        proof {
            start.lemma_written_twice(head, self@.emit_flagged(from, flags).bytes);
        }
        Ok(())
    }
}

impl<T: Clone + Replicable> HistoryView<T> {
    /// Whether every value can be written.
    pub open spec fn all_written(self) -> bool {
        forall|i: int| 0 <= i < self.items.len() ==> (#[trigger] self.items[i]).emit().error is None
    }

    /// What lies in the window is written, with every value or with those that `flags` pick.
    proof fn lemma_window_is_written(self, from: u64, flags: Seq<bool>)
        requires
            self.consistent(),
            self.items.len() > 0,
            self.all_written(),
            self.first_tick() <= from,
            from + flags.len() <= self.now.0 + 1,
        ensures
            self.emit_values(from, flags.len()).error is None,
            self.emit_flagged(from, flags).error is None,
        decreases flags.len(),
    {
        if flags.len() > 0 {
            self.lemma_window_is_written(from, flags.drop_last());
            let tick = (from + flags.len() - 1) as u64;
            assert(self.at(TimeStamp(tick)) == Some(self.items[tick - self.first_tick()]));
        }
    }

    /// Writing a stretch of a history fails only where a value cannot be written: no tick of it
    /// is found missing, whatever flags pick the values.
    pub proof fn law_stretch_is_written(self, range: TickRange, flags: Seq<bool>)
        requires
            self.consistent(),
            self.items.len() > 0,
            self.all_written(),
            flags.len() <= tick_count(self.stretch(range).0, self.stretch(range).1),
        ensures
            self.emit_compressed(self.stretch(range), flags).error is None,
            flags.len() == tick_count(self.stretch(range).0, self.stretch(range).1)
                ==> self.emit_plain(self.stretch(range)).error is None,
    {
        let (from, to) = self.stretch(range);
        if flags.len() > 0 {
            self.lemma_window_is_written(from, flags);
        }
    }
}

proof fn lemma_last_set_prefix(flags: Seq<bool>, longer: Seq<bool>, end: int)
    requires
        end <= flags.len() < longer.len(),
        longer.take(flags.len() as int) =~= flags,
    ensures
        last_set(longer, end) == last_set(flags, end),
    decreases end,
{
    if end > 0 {
        assert(longer.take(flags.len() as int)[end - 1] == longer[end - 1]);
        lemma_last_set_prefix(flags, longer, end - 1);
    }
}

impl<T: Clone + PartialEq> HistoryView<T> {
    proof fn lemma_flags_grow(self, from: u64, flags: Seq<bool>, next: bool)
        requires
            self.flags_tell_changes(from, flags),
            next == self.is_change(from, flags, flags.len() as int),
        ensures
            self.flags_tell_changes(from, flags.push(next)),
    {
        let longer = flags.push(next);
        assert forall|i: int| 0 <= i < longer.len() implies #[trigger] longer[i] == self.is_change(
            from,
            longer,
            i,
        ) by {
            assert(longer.take(flags.len() as int) =~= flags);
            lemma_last_set_prefix(flags, longer, i);
            if i < flags.len() {
                assert(flags[i] == self.is_change(from, flags, i));
            }
        }
    }
}

impl<T: Clone + Replicable> HistoryView<T> {
    proof fn lemma_emit_values_failed(self, from: u64, count: nat, end: nat)
        requires
            count <= end,
        ensures
            self.emit_values(from, count).error is Some ==> self.emit_values(from, end)
                == self.emit_values(from, count),
        decreases end,
    {
        if count < end {
            self.lemma_emit_values_failed(from, count, (end - 1) as nat);
        }
    }
}

impl<T: Clone + DefaultReplicable> HistoryBuffer<T> {
    /// Puts in the values of a written stretch of history, up to the first failure.
    pub fn apply_changes(&mut self, buffer: &mut Buffer) -> (result: Result<(), Error>)
        requires
            old(self)@.accepts_stretch(old(buffer)@.rest),
        ensures
            exists|consumed: nat|
                {
                    &&& #[trigger] old(self)@.reads_stretch(
                        old(buffer)@.rest,
                        final(self)@,
                        failure(result),
                        consumed,
                    )
                    &&& final(buffer)@ == old(buffer)@.advanced(consumed)
                },
    {
        let ghost before = buffer@;
        let ghost start = self@;
        let mut head: (bool, u64, u64) = (false, 0, 0);
        let ghost parsed = parse_stretch_head(before.rest);
        proof {
            <(bool, u64, u64) as Replicable>::parse_is_within((false, 0u64, 0u64), before.rest);
        }
        match head.apply_changes(buffer) {
            Ok(_) => {},
            Err(error) => {
                assert(start.reads_stretch(before.rest, self@, Some(error), parsed.1));
                return Err(error);
            },
        }
        let (compressed, from, to): (bool, u64, u64) = head;
        let ghost bytes = before.rest.skip(parsed.1 as int);
        let ghost total = tick_count(from, to);
        let ghost mut items: Seq<T> = Seq::empty();
        let mut value = T::default();
        proof {
            T::default_is_blank(value);
            before.lemma_advanced_twice(parsed.1, 0);
            assert(bytes == buffer@.rest);
        }
        let mut done: u64 = 0;
        while from <= to && done <= to - from
            invariant
                before == old(buffer)@,
                start == old(self)@,
                parsed == parse_stretch_head(before.rest),
                parsed.0 == Ok::<(bool, u64, u64), Error>((compressed, from, to)),
                parsed.1 <= before.rest.len(),
                bytes == before.rest.skip(parsed.1 as int),
                total == tick_count(from, to),
                start.accepts_ticks(from, total),
                done <= total,
                items.len() == done,
                parse_stretch::<T>(compressed, bytes, done as nat).error is None,
                buffer@ == before.advanced(
                    parsed.1 + parse_stretch::<T>(compressed, bytes, done as nat).consumed,
                ),
                forall|i: int|
                    0 <= i < items.len() ==> stands_for(
                        #[trigger] items[i],
                        parse_stretch::<T>(compressed, bytes, done as nat).model[i],
                        compressed,
                    ),
                start.put_all(from, items, self@),
                value.model() == if done == 0 || !compressed {
                    T::blank()
                } else {
                    parse_stretch::<T>(compressed, bytes, done as nat).model.last()
                },
            decreases total - done,
        {
            let ghost so_far = parse_stretch::<T>(compressed, bytes, done as nat);
            let ghost after = parse_stretch::<T>(compressed, bytes, (done + 1) as nat);
            let ghost rest = bytes.skip(so_far.consumed as int);
            proof {
                lemma_parse_stretch::<T>(compressed, bytes, done as nat, done as nat);
                lemma_parse_stretch::<T>(compressed, bytes, (done + 1) as nat, total);
                assert(before.rest.skip((parsed.1 + so_far.consumed) as int) =~= rest);
                let step = parse_stretch_step::<T>(compressed, rest, value.model());
                assert(after.consumed == so_far.consumed + step.consumed);
                before.lemma_advanced_twice(parsed.1 + so_far.consumed, step.consumed);
                if compressed && rest.len() > 0 {
                    before.lemma_advanced_twice(parsed.1 + so_far.consumed, 1);
                    before.lemma_advanced_twice(
                        parsed.1 + so_far.consumed + 1,
                        T::parse(value.model(), rest.skip(1)).consumed,
                    );
                    assert(rest.skip(1) =~= before.rest.skip(
                        (parsed.1 + so_far.consumed + 1) as int,
                    ));
                }
            }
            let tick: u64 = from + done;
            let item: T;
            if compressed {
                match read_bool(buffer) {
                    Ok(changed) => {
                        if changed {
                            match value.apply_changes(buffer) {
                                Ok(_) => {},
                                Err(error) => {
                                    assert(start.put_all(from, items, self@));
                                    assert(start.reads_stretch(
                                        before.rest,
                                        self@,
                                        Some(error),
                                        parsed.1 + after.consumed,
                                    ));
                                    return Err(error);
                                },
                            }
                        }
                    },
                    Err(error) => {
                        assert(start.put_all(from, items, self@));
                        assert(start.reads_stretch(
                            before.rest,
                            self@,
                            Some(error),
                            parsed.1 + after.consumed,
                        ));
                        return Err(error);
                    },
                }
                item = value.clone();
                assert(cloned::<T>(value, item));
            } else {
                let mut fresh = T::default();
                proof {
                    T::default_is_blank(fresh);
                }
                match fresh.apply_changes(buffer) {
                    Ok(_) => {},
                    Err(error) => {
                        assert(start.put_all(from, items, self@));
                        assert(start.reads_stretch(
                            before.rest,
                            self@,
                            Some(error),
                            parsed.1 + after.consumed,
                        ));
                        return Err(error);
                    },
                }
                item = fresh;
            }
            let ghost between = self@;
            let ghost more = items.push(item);
            self.set(TimeStamp(tick), item);
            proof {
                assert(more.drop_last() =~= items);
                assert(between.set_to(
                    TimeStamp((from + more.len() - 1) as u64),
                    more.last(),
                    self@,
                ));
                assert(start.put_all(from, more, self@));
                assert forall|i: int| 0 <= i < more.len() implies stands_for(
                    #[trigger] more[i],
                    after.model[i],
                    compressed,
                ) by {
                    if i < items.len() {
                        assert(stands_for(items[i], so_far.model[i], compressed));
                    }
                }
                items = more;
            }
            if done == u64::MAX {
                assert(total == done + 1);
                assert(start.reads_stretch(
                    before.rest,
                    self@,
                    None,
                    parsed.1 + after.consumed,
                ));
                return Ok(());
            }
            done = done + 1;
        }
        proof {
            lemma_parse_stretch::<T>(compressed, bytes, total, total);
            assert(done == total);
        }
        assert(start.reads_stretch(
            before.rest,
            self@,
            None,
            parsed.1 + parse_stretch::<T>(compressed, bytes, total).consumed,
        ));
        Ok(())
    }
}

impl<T: Clone + Replicable> HistoryView<T> {
    /// What matters of the value at `from + place`.
    pub open spec fn model_at(self, from: u64, place: int) -> T::Model {
        self.at(TimeStamp((from + place) as u64))->0.model()
    }

    /// What matters of the last value that `flags` pick up to `place`.
    pub open spec fn written_model(self, from: u64, flags: Seq<bool>, place: int) -> T::Model {
        self.model_at(from, last_set(flags, place + 1)->0)
    }
}

impl<T: Clone + DefaultReplicable + LosslessReplicable> HistoryView<T> {
    /// Whether every value from tick `from` on fits in what is written of it.
    pub open spec fn fits_from(self, from: u64) -> bool {
        forall|tick: u64|
            from <= tick && (#[trigger] self.at(TimeStamp(tick))) is Some ==> self.at(
                TimeStamp(tick),
            )->0.fits()
    }

    /// The values of a stretch that was written are those that are read.
    pub proof fn law_plain_round_trip(self, from: u64, count: nat, tail: Seq<u8>)
        requires
            from + count <= u64::MAX + 1,
            self.emit_values(from, count).error is None,
            self.fits_from(from),
        ensures
            parse_stretch::<T>(false, self.emit_values(from, count).bytes + tail, count)
                == (Applied {
                model: Seq::new(count, |place: int| self.model_at(from, place)),
                error: None,
                consumed: self.emit_values(from, count).bytes.len(),
            }),
        decreases count,
    {
        let expected = Seq::new(count, |place: int| self.model_at(from, place));
        if count > 0 {
            let first = self.emit_values(from, (count - 1) as nat);
            let value = self.at(TimeStamp((from + count - 1) as u64))->0;
            let last = value.emit();
            let all = self.emit_values(from, count).bytes + tail;
            self.law_plain_round_trip(from, (count - 1) as nat, last.bytes + tail);
            value.law_round_trip(T::blank(), tail);
            assert(all =~= first.bytes + (last.bytes + tail));
            assert(all.skip(first.bytes.len() as int) =~= last.bytes + tail);
            assert(expected =~= Seq::new(
                (count - 1) as nat,
                |place: int| self.model_at(from, place),
            ).push(value.model()));
        } else {
            assert(expected =~= Seq::empty());
        }
    }

    /// The values of a stretch that was written compressed are, tick by tick, the last ones
    /// that were written.
    pub proof fn law_compressed_round_trip(self, from: u64, flags: Seq<bool>, tail: Seq<u8>)
        requires
            from + flags.len() <= u64::MAX + 1,
            self.emit_flagged(from, flags).error is None,
            flags.len() > 0 ==> flags[0],
            self.fits_from(from),
        ensures
            parse_stretch::<T>(true, self.emit_flagged(from, flags).bytes + tail, flags.len())
                == (Applied {
                model: Seq::new(
                    flags.len(),
                    |place: int| self.written_model(from, flags, place),
                ),
                error: None,
                consumed: self.emit_flagged(from, flags).bytes.len(),
            }),
        decreases flags.len(),
    {
        let count = flags.len();
        let expected = Seq::new(count, |place: int| self.written_model(from, flags, place));
        if count > 0 {
            let fewer = flags.drop_last();
            let first = self.emit_flagged(from, fewer).bytes;
            let value = self.at(TimeStamp((from + count - 1) as u64))->0;
            let last = if flags.last() {
                seq![bool_byte(true)] + value.emit().bytes
            } else {
                seq![bool_byte(false)]
            };
            let all = self.emit_flagged(from, flags).bytes + tail;
            let rest = last + tail;
            self.law_compressed_round_trip(from, fewer, rest);
            let earlier = Seq::new(
                (count - 1) as nat,
                |place: int| self.written_model(from, fewer, place),
            );
            let prior = if count == 1 {
                T::blank()
            } else {
                earlier.last()
            };
            assert(all =~= first + rest);
            assert(all.skip(first.len() as int) =~= rest);
            if flags.last() {
                value.law_round_trip(prior, tail);
                assert(rest.skip(1) =~= value.emit().bytes + tail);
            }
            assert(flags.take(fewer.len() as int) =~= fewer);
            assert forall|place: int| 0 <= place < count - 1 implies self.written_model(
                from,
                flags,
                place,
            ) == #[trigger] earlier[place] by {
                lemma_last_set_prefix(fewer, flags, place + 1);
            }
            lemma_last_set_prefix(fewer, flags, count - 1);
            assert(self.written_model(from, flags, count - 1) == if flags.last() {
                value.model()
            } else {
                prior
            });
            assert(expected =~= earlier.push(self.written_model(from, flags, count - 1)));
        } else {
            assert(expected =~= Seq::empty());
        }
    }
}

/// A stretch of history as a value of its own.
#[derive(Debug, Clone, PartialEq, Eq)]
pub struct HistoryEvent<T> {
    start: TimeStamp,
    snapshots: Vec<T>,
}

impl<T> HistoryEvent<T> {
    /// The tick of the first value.
    pub closed spec fn start(&self) -> TimeStamp {
        self.start
    }

    /// The values, tick by tick.
    pub closed spec fn values(&self) -> Seq<T> {
        self.snapshots@
    }

    /// All values with their ticks.
    pub open spec fn entries(&self) -> Seq<(TimeStamp, T)> {
        Seq::new(
            self.values().len(),
            |i: int| (TimeStamp(saturating_sum(self.start().0, i as u64)), self.values()[i]),
        )
    }

    /// A stretch of `snapshots` from `start` on.
    pub fn new(start: TimeStamp, snapshots: Vec<T>) -> (result: Self)
        ensures
            result.start() == start,
            result.values() == snapshots@,
    {
        HistoryEvent { start, snapshots }
    }

    /// The tick of the last value.
    pub fn now(&self) -> (result: TimeStamp)
        ensures
            result.0 == saturating_difference(
                saturating_sum(self.start().0, self.values().len() as u64),
                1,
            ),
    {
        self.start + self.snapshots.len() as u64 - 1
    }

    /// The tick of the first value.
    pub fn past(&self) -> (result: TimeStamp)
        ensures
            result == self.start(),
    {
        self.start
    }

    /// The values, tick by tick.
    pub fn snapshots(&self) -> (result: &Vec<T>)
        ensures
            result@ == self.values(),
    {
        &self.snapshots
    }

    /// The ticks of the first and the last value.
    pub fn range(&self) -> (result: RangeInclusive<TimeStamp>)
        ensures
            result@.start == self.start(),
            result@.end.0 == saturating_difference(
                saturating_sum(self.start().0, self.values().len() as u64),
                1,
            ),
            !result@.exhausted,
    {
        RangeInclusive::new(self.past(), self.now())
    }

    /// All values with their ticks.
    pub fn iter(&self) -> (result: Vec<(TimeStamp, &T)>)
        ensures
            result@.len() == self.entries().len(),
            forall|i: int|
                0 <= i < result@.len() ==> {
                    &&& (#[trigger] result@[i]).0 == self.entries()[i].0
                    &&& *result@[i].1 == self.entries()[i].1
                },
    {
        let mut result: Vec<(TimeStamp, &T)> = Vec::new();
        let mut index: usize = 0;
        while index < self.snapshots.len()
            invariant
                index <= self.snapshots@.len(),
                result@.len() == index,
                forall|i: int|
                    0 <= i < index ==> {
                        &&& (#[trigger] result@[i]).0 == self.entries()[i].0
                        &&& *result@[i].1 == self.entries()[i].1
                    },
            decreases self.snapshots@.len() - index,
        {
            result.push((self.start + index as u64, &self.snapshots[index]));
            index = index + 1;
        }
        result
    }
}

/// Whether each of `copies` is a clone of the value with the same place in `entries`.
pub open spec fn clones_of<T: Clone>(copies: Seq<T>, entries: Seq<(TimeStamp, T)>) -> bool {
    &&& copies.len() == entries.len()
    &&& forall|i: int|
        0 <= i < copies.len() ==> cloned::<T>(entries[i].1, #[trigger] copies[i])
}

impl<T: Clone> HistoryEvent<T> {
    /// Clones the values of `range` out of a history, if there are any.
    pub fn collect_history(buffer: &HistoryBuffer<T>, range: TickRange) -> (result: Option<Self>)
        ensures
            result is None <==> buffer@.entries(range).len() == 0,
            result matches Some(event) ==> {
                &&& event.start() == buffer@.entries(range)[0].0
                &&& clones_of(event.values(), buffer@.entries(range))
            },
    {
        let entries = buffer.iter(range);
        if entries.len() == 0 {
            return None;
        }
        let (start, _): (TimeStamp, &T) = entries[0];
        let mut snapshots: Vec<T> = Vec::new();
        let mut index: usize = 0;
        while index < entries.len()
            invariant
                index <= entries@.len() == buffer@.entries(range).len(),
                forall|i: int|
                    0 <= i < entries@.len() ==> {
                        &&& (#[trigger] entries@[i]).0 == buffer@.entries(range)[i].0
                        &&& *entries@[i].1 == buffer@.entries(range)[i].1
                    },
                snapshots@.len() == index,
                forall|i: int|
                    0 <= i < index ==> cloned::<T>(
                        buffer@.entries(range)[i].1,
                        #[trigger] snapshots@[i],
                    ),
            decreases entries@.len() - index,
        {
            let (_, value): (TimeStamp, &T) = entries[index];
            snapshots.push(value.clone());
            index = index + 1;
        }
        Some(HistoryEvent { start, snapshots })
    }

    /// Clones the value at `timestamp` out of a history, if there is one.
    pub fn collect_snapshot(buffer: &HistoryBuffer<T>, timestamp: TimeStamp) -> (result: Option<
        Self,
    >)
        ensures
            result is None <==> buffer@.at(timestamp) is None,
            result matches Some(event) ==> {
                &&& event.start() == timestamp
                &&& event.values().len() == 1
                &&& cloned::<T>(buffer@.at(timestamp)->0, event.values()[0])
            },
    {
        match buffer.get(timestamp) {
            Some(value) => {
                let mut snapshots: Vec<T> = Vec::new();
                snapshots.push(value.clone());
                Some(HistoryEvent { start: timestamp, snapshots })
            },
            None => None,
        }
    }

    /// Clones the values into a history, tick by tick.
    pub fn apply_history(&self, buffer: &mut HistoryBuffer<T>) -> (result: Result<(), Error>)
        requires
            old(buffer)@.accepts_all(self.entries()),
        ensures
            result is Ok,
            old(buffer)@.set_all(self.entries(), final(buffer)@),
    {
        let ghost start = buffer@;
        let ghost entries = self.entries();
        let mut index: usize = 0;
        while index < self.snapshots.len()
            invariant
                index <= self.snapshots@.len(),
                entries == self.entries(),
                entries.len() == self.snapshots@.len(),
                start.accepts_all(entries),
                start.set_all(entries.take(index as int), buffer@),
            decreases self.snapshots@.len() - index,
        {
            let copy = self.snapshots[index].clone();
            let ghost before = buffer@;
            let timestamp = self.start + index as u64;
            assert(before.accepts(entries[index as int].0));
            buffer.set(timestamp, copy);
            proof {
                let next = entries.take(index + 1);
                assert(next.drop_last() =~= entries.take(index as int));
                assert(before.set_to(next.last().0, copy, buffer@));
                assert(start.set_all(next, buffer@));
            }
            index = index + 1;
        }
        assert(entries.take(index as int) =~= entries);
        Ok(())
    }

    /// Clones the values into a history and tells the first tick at which they differed from
    /// what was there.
    pub fn apply_history_divergence(&self, buffer: &mut HistoryBuffer<T>) -> (result: Result<
        Option<TimeStamp>,
        Error,
    >) where T: PartialEq
        requires
            forall|temporary: HistoryView<T>|
                #[trigger] HistoryView::<T>::empty(self.values().len() as usize).set_all(
                    self.entries(),
                    temporary,
                ) ==> old(buffer)@.accepts_all(temporary.all_entries()),
        ensures
            result is Ok,
            exists|temporary: HistoryView<T>|
                {
                    &&& #[trigger] HistoryView::<T>::empty(self.values().len() as usize).set_all(
                        self.entries(),
                        temporary,
                    )
                    &&& old(buffer)@.diverges_from(temporary, result->Ok_0)
                    &&& old(buffer)@.set_all(temporary.all_entries(), final(buffer)@)
                },
    {
        let ghost before = buffer@;
        let mut temporary: HistoryBuffer<T> = HistoryBuffer::with_capacity(self.snapshots.len());
        let ghost blank = HistoryView::<T>::empty(self.values().len() as usize);
        proof {
            assert(temporary@ == blank);
            if self.entries().len() > 0 {
                blank.lemma_accepts_all(self.entries());
            }
        }
        let _ = self.apply_history(&mut temporary);
        let divergence = buffer.divergence(&temporary);
        proof {
            temporary@.lemma_full_entries();
            assert(blank.set_all(self.entries(), temporary@));
        }
        temporary.clone_to(buffer, TickRange::full());
        Ok(divergence)
    }
}

impl<T> HistoryView<T> {
    /// All of time holds all values.
    pub proof fn lemma_full_entries(self)
        ensures
            self.entries(TickRange { start: TickBound::Unbounded, end: TickBound::Unbounded })
                == self.all_entries(),
    {
        let all = self.all_entries();
        let range = TickRange { start: TickBound::Unbounded, end: TickBound::Unbounded };
        lemma_filter_is_subrange(
            all,
            |entry: (TimeStamp, T)| range.spec_contains(entry.0),
            0,
            all.len() as int,
        );
        assert(all.subrange(0, all.len() as int) =~= all);
    }

    /// A history without values.
    pub open spec fn empty(capacity: usize) -> HistoryView<T> {
        HistoryView { capacity, items: Seq::empty(), now: TimeStamp(0) }
    }
}

impl TickRange {
    /// A span holds the ticks from its first to its last one and no others.
    pub proof fn law_held_ticks(self, timestamp: TimeStamp)
        ensures
            self.spec_contains(timestamp) <==> {
                &&& match self.start {
                    TickBound::Included(first) => first.0 <= timestamp.0,
                    TickBound::Excluded(before) => before.0 < timestamp.0,
                    TickBound::Unbounded => true,
                }
                &&& match self.end {
                    TickBound::Included(last) => timestamp.0 <= last.0,
                    TickBound::Excluded(behind) => timestamp.0 < behind.0,
                    TickBound::Unbounded => true,
                }
            },
            self.spec_contains(timestamp) <==> !self.spec_starts_after(timestamp)
                && !self.spec_ends_before(timestamp),
            self.end is Unbounded ==> !self.spec_ends_before(timestamp),
            self.start is Unbounded ==> !self.spec_starts_after(timestamp),
            forall|held: TimeStamp|
                #![trigger self.spec_contains(held)]
                self.spec_contains(held) ==> {
                    &&& self.spec_ends_before(timestamp) ==> held.0 < timestamp.0
                    &&& self.spec_starts_after(timestamp) ==> timestamp.0 < held.0
                },
    {
    }

    /// The first and the last tick of a span are the first and the last that it holds of the
    /// ticks from `past` to `now`, where it has no ends of its own. A span that ends before
    /// tick zero, or starts behind the last tick of all, holds none.
    pub proof fn law_ends_are_held(self, past: TimeStamp, now: TimeStamp)
        requires
            self.end != TickBound::Excluded(TimeStamp(0)),
            self.start != TickBound::Excluded(TimeStamp(u64::MAX)),
        ensures
            !self.spec_starts_after(self.first_tick(past)),
            !self.spec_ends_before(self.last_tick(now)),
            self.start !is Unbounded && self.first_tick(past).0 > 0 ==> self.spec_starts_after(
                TimeStamp((self.first_tick(past).0 - 1) as u64),
            ),
            self.end !is Unbounded && self.last_tick(now).0 < u64::MAX ==> self.spec_ends_before(
                TimeStamp((self.last_tick(now).0 + 1) as u64),
            ),
            self.start is Unbounded ==> self.first_tick(past) == past,
            self.end is Unbounded ==> self.last_tick(now) == now,
    {
    }
}

impl<T> HistoryView<T> {
    /// The window holds a value for each tick from its first one to its end and for no other,
    /// and the last value is that of the end.
    pub proof fn law_window_ends_now(self, timestamp: TimeStamp)
        requires
            self.consistent(),
            self.items.len() > 0,
        ensures
            self.first_tick() + self.items.len() == self.now.0 + 1,
            self.at(timestamp) is Some <==> self.now.0 - self.items.len() < timestamp.0
                <= self.now.0,
            self.at(timestamp) is Some ==> self.at(timestamp)->0 == self.items[self.items.len() - 1
                - (self.now.0 - timestamp.0)],
    {
    }

    /// Behind the window, the value at its end stands for what comes; before the window, the
    /// one at its first tick for what was. Within, each tick has its own value.
    pub proof fn law_extrapolated_is_nearest(self, timestamp: TimeStamp)
        requires
            self.consistent(),
        ensures
            self.items.len() == 0 ==> self.extrapolated(timestamp) is None,
            self.items.len() > 0 ==> {
                let nearest = if timestamp.0 > self.now.0 {
                    self.now
                } else if timestamp.0 < self.now.0 - (self.items.len() - 1) {
                    TimeStamp((self.now.0 - (self.items.len() - 1)) as u64)
                } else {
                    timestamp
                };
                &&& self.extrapolated(timestamp) is Some
                &&& self.extrapolated(timestamp) == self.at(nearest)
            },
    {
    }

    /// The values of a range are exactly those of the window at ticks that the range holds.
    pub proof fn law_entries_are_held(self, range: TickRange, timestamp: TimeStamp, value: T)
        requires
            self.consistent(),
        ensures
            self.entries(range).contains((timestamp, value)) <==> {
                &&& range.spec_contains(timestamp)
                &&& self.at(timestamp) == Some(value)
            },
    {
        let all = self.all_entries();
        let wanted = |entry: (TimeStamp, T)| range.spec_contains(entry.0);
        let entry = (timestamp, value);
        assert forall|i: int| 0 <= i < all.len() implies (#[trigger] all[i]).0.0
            == self.first_tick() + i by {}
        if self.entries(range).contains(entry) {
            lemma_filter_takes_from(all, wanted, entry);
            let i = choose|i: int| 0 <= i < all.len() && all[i] == entry;
            assert(all[i].0.0 == self.first_tick() + i);
            let place = choose|place: int|
                0 <= place < self.entries(range).len() && self.entries(range)[place] == entry;
            all.lemma_filter_pred(wanted, place);
        }
        if range.spec_contains(timestamp) && self.at(timestamp) == Some(value) {
            let i = timestamp.0 - self.first_tick();
            assert(all[i] == entry);
            all.lemma_filter_contains(wanted, i);
        }
    }
}

impl<T: PartialEq> HistoryView<T> {
    /// Histories diverge at the first tick at which both have a value and these are unequal.
    /// Without such a tick they do not diverge.
    pub proof fn law_divergence_is_the_first_difference(
        self,
        other: Self,
        result: Option<TimeStamp>,
        timestamp: TimeStamp,
    )
        requires
            self.consistent(),
            other.consistent(),
            T::obeys_eq_spec(),
            self.diverges_from(other, result),
        ensures
            result matches Some(first) ==> {
                &&& self.at(first) is Some
                &&& other.at(first) is Some
                &&& !self.at(first)->0.eq_spec(&other.at(first)->0)
            },
            (self.at(timestamp) is Some && other.at(timestamp) is Some && !self.at(
                timestamp,
            )->0.eq_spec(&other.at(timestamp)->0)) ==> result is Some && (result->0).0
                <= timestamp.0,
    {
        if self.at(timestamp) is Some && other.at(timestamp) is Some && !self.at(
            timestamp,
        )->0.eq_spec(&other.at(timestamp)->0) {
            assert(self.covers_with(other, timestamp));
            assert(self.differs_at(other, timestamp));
        }
    }
}

impl<T: Clone> HistoryView<T> {
    /// Putting a value behind the window moves its end there and gives up no more of its
    /// earliest ticks than the capacity demands.
    pub proof fn law_set_behind_keeps_what_fits(
        self,
        timestamp: TimeStamp,
        value: T,
        after: Self,
        other: TimeStamp,
    )
        requires
            self.consistent(),
            self.capacity > 0,
            self.items.len() > 0,
            timestamp.0 > self.now.0,
            self.set_to(timestamp, value, after),
        ensures
            after.capacity == self.capacity,
            after.now == timestamp,
            after.at(timestamp) == Some(value),
            after.at(other) is Some <==> {
                &&& other.0 <= timestamp.0
                &&& self.now.0 - self.items.len() < other.0
                &&& timestamp.0 - self.capacity < other.0
            },
            other.0 <= self.now.0 && timestamp.0 - self.capacity < other.0 ==> after.at(other)
                == self.at(other),
    {
    }

    /// Putting a value before the window moves its start there and gives up no more of its
    /// latest ticks than the capacity demands.
    pub proof fn law_set_before_keeps_what_fits(
        self,
        timestamp: TimeStamp,
        value: T,
        after: Self,
        other: TimeStamp,
    )
        requires
            self.consistent(),
            self.capacity > 0,
            0 < self.items.len() <= self.capacity,
            timestamp.0 < self.now.0 - (self.items.len() - 1),
            self.set_to(timestamp, value, after),
        ensures
            after.capacity == self.capacity,
            after.at(other) is Some <==> timestamp.0 <= other.0 <= self.now.0 && other.0
                < timestamp.0 + self.capacity,
            self.now.0 - self.items.len() < other.0 < timestamp.0 + self.capacity ==> after.at(other)
                == self.at(other),
    {
    }

    /// Putting a value within the window, or into an empty one, moves nothing else.
    pub proof fn law_set_within_moves_nothing(
        self,
        timestamp: TimeStamp,
        value: T,
        after: Self,
        other: TimeStamp,
    )
        requires
            self.consistent(),
            self.items.len() == 0 || self.at(timestamp) is Some,
            self.set_to(timestamp, value, after),
        ensures
            after.capacity == self.capacity,
            after.at(timestamp) == Some(value),
            other != timestamp ==> after.at(other) == self.at(other),
            self.items.len() == 0 ==> after.now == timestamp,
            self.items.len() > 0 ==> after.now == self.now,
    {
    }

    /// Travelling to a tick ends the history there: whatever the tick, the history holds
    /// nothing behind it. Ahead it stretches without gaps, giving up no more of its earliest
    /// ticks than the capacity demands; before the window nothing is left.
    pub proof fn law_travel_ends_there(self, timestamp: TimeStamp, after: Self, other: TimeStamp)
        requires
            self.consistent(),
            self.travelled_to(timestamp, after),
        ensures
            after.now == timestamp,
            after.capacity == self.capacity,
            after.at(other) is Some ==> other.0 <= timestamp.0,
            self.items.len() == 0 ==> after.at(other) is None,
            self.items.len() > 0 && timestamp.0 <= self.now.0 && other.0 <= timestamp.0 ==> after.at(
                other,
            ) == self.at(other),
            self.items.len() > 0 && timestamp.0 > self.now.0 ==> (after.at(other) is Some <==> {
                &&& other.0 <= timestamp.0
                &&& self.now.0 - self.items.len() < other.0
                &&& timestamp.0 - self.capacity < other.0
            }),
    {
    }

    /// Values that are put at ticks that follow one another are there, as far as the window
    /// reaches back.
    pub proof fn law_put_all_then_get(self, from: u64, items: Seq<T>, after: Self, place: int)
        requires
            self.consistent(),
            self.capacity > 0,
            from + items.len() <= u64::MAX + 1,
            self.put_all(from, items, after),
            0 <= place < items.len(),
        ensures
            after.consistent(),
            after.capacity == self.capacity,
            after.at(TimeStamp((from + items.len() - 1) as u64)) is Some,
            after.at(TimeStamp((from + place) as u64)) is Some ==> copy_of(
                items[place],
                after.at(TimeStamp((from + place) as u64))->0,
            ),
        decreases items.len(),
    {
        let last = TimeStamp((from + items.len() - 1) as u64);
        let between = choose|between: Self|
            {
                &&& self.put_all(from, items.drop_last(), between)
                &&& #[trigger] between.set_to(last, items.last(), after)
            };
        let earlier = items.drop_last();
        if earlier.len() == 0 {
            self.law_set_then_get(last, items.last(), after);
        } else {
            self.law_put_all_then_get(from, earlier, between, earlier.len() - 1);
            between.law_set_then_get(last, items.last(), after);
            if place < earlier.len() {
                self.law_put_all_then_get(from, earlier, between, place);
                let tick = TimeStamp((from + place) as u64);
                if after.at(tick) is Some {
                    assert(between.at(tick) is Some);
                    between.law_set_keeps_the_rest(last, items.last(), after, tick);
                }
            }
        }
    }
}

/// The last flag that is set before an end is set, and none is set between it and the end.
pub proof fn law_last_set(flags: Seq<bool>, end: int, other: int)
    requires
        0 <= end <= flags.len(),
    ensures
        last_set(flags, end) matches Some(place) ==> 0 <= place < end && flags[place],
        0 <= other < end && flags[other] ==> last_set(flags, end) is Some && other <= last_set(
            flags,
            end,
        )->0,
    decreases end,
{
    if end > 0 && !flags[end - 1] {
        law_last_set(flags, end - 1, other);
    }
}

impl<T: Clone + PartialEq> HistoryView<T> {
    /// Where flags tell the changes, the first value is written, and each value that is not
    /// written equals the last one that was.
    pub proof fn law_left_out_values_are_equal(self, from: u64, flags: Seq<bool>, place: int)
        requires
            self.flags_tell_changes(from, flags),
            0 <= place < flags.len(),
        ensures
            flags[0],
            last_set(flags, place + 1) is Some,
            !flags[place] ==> {
                let written = self.at(
                    TimeStamp((from + last_set(flags, place + 1)->0) as u64),
                );
                let left_out = self.at(TimeStamp((from + place) as u64));
                written is Some && left_out is Some && written->0.eq_spec(&left_out->0)
            },
            flags[place] && place > 0 ==> {
                let earlier = self.at(TimeStamp((from + last_set(flags, place)->0) as u64));
                let here = self.at(TimeStamp((from + place) as u64));
                earlier is Some && here is Some ==> !earlier->0.eq_spec(&here->0)
            },
    {
        assert(flags[0] == self.is_change(from, flags, 0));
        law_last_set(flags, place + 1, 0);
        law_last_set(flags, place, 0);
        assert(flags[place] == self.is_change(from, flags, place));
    }
}

impl<T: Clone + Replicable> HistoryView<T> {
    /// What is written of a range are the ticks of the window that the range holds, all of them
    /// and no others. A range that ends before tick zero, or starts behind the last tick of
    /// all, holds none.
    pub proof fn law_stretch_is_held(self, range: TickRange, timestamp: TimeStamp)
        requires
            self.consistent(),
            self.items.len() > 0,
            range.end != TickBound::Excluded(TimeStamp(0)),
            range.start != TickBound::Excluded(TimeStamp(u64::MAX)),
        ensures
            self.stretch(range).0 <= timestamp.0 <= self.stretch(range).1 <==> range.spec_contains(
                timestamp,
            ) && self.at(timestamp) is Some,
    {
    }
}

impl<T: Clone + DefaultReplicable + LosslessReplicable> HistoryView<T> {
    /// A history that reads a stretch which another one wrote holds, at each tick of it that
    /// it reaches over, what that one held there.
    pub proof fn law_written_history_is_read(
        self,
        other: Self,
        stretch: (u64, u64),
        tail: Seq<u8>,
        after: Self,
        error: Option<Error>,
        consumed: nat,
        timestamp: TimeStamp,
    )
        requires
            other.consistent(),
            other.capacity > 0,
            stretch.0 <= timestamp.0 <= stretch.1,
            self.emit_plain(stretch).error is None,
            self.fits_from(stretch.0),
            other.reads_stretch(self.emit_plain(stretch).bytes + tail, after, error, consumed),
        ensures
            error is None,
            consumed == self.emit_plain(stretch).bytes.len(),
            after.at(TimeStamp(stretch.1)) is Some,
            after.at(timestamp) is Some ==> self.at(timestamp) is Some && exists|value: T|
                #![trigger value.model()]
                value.model() == self.at(timestamp)->0.model() && copy_of(
                    value,
                    after.at(timestamp)->0,
                ),
    {
        let (from, to) = stretch;
        let count = tick_count(from, to);
        let head = (false, from, to);
        let values = self.emit_values(from, count);
        let bytes = self.emit_plain(stretch).bytes + tail;
        assert(head.fits());
        head.law_round_trip((false, 0u64, 0u64), values.bytes + tail);
        assert(bytes =~= head.emit().bytes + (values.bytes + tail));
        let width = head.emit().bytes.len();
        assert(bytes.skip(width as int) =~= values.bytes + tail);
        assert(parse_stretch_head(bytes) == (
            Ok::<(bool, u64, u64), Error>((false, from, to)),
            width,
        ));
        self.law_plain_round_trip(from, count, tail);
        let parsed = parse_stretch::<T>(false, values.bytes + tail, count);
        let items = choose|items: Seq<T>|
            {
                &&& items.len() == parsed.model.len()
                &&& forall|i: int|
                    0 <= i < items.len() ==> stands_for(
                        #[trigger] items[i],
                        parsed.model[i],
                        false,
                    )
                &&& #[trigger] other.put_all(from, items, after)
            };
        let place = timestamp.0 - from;
        other.law_put_all_then_get(from, items, after, place);
        self.lemma_written_is_there(from, count, place);
        assert(stands_for(items[place], parsed.model[place], false));
        assert(items[place].model() == self.model_at(from, place));
    }
}

impl<T: Clone + Replicable> HistoryView<T> {
    /// A stretch that is written without failure holds a value at each of its ticks.
    proof fn lemma_written_is_there(self, from: u64, count: nat, place: int)
        requires
            self.emit_values(from, count).error is None,
            0 <= place < count,
        ensures
            self.at(TimeStamp((from + place) as u64)) is Some,
        decreases count,
    {
        if place < count - 1 {
            self.lemma_written_is_there(from, (count - 1) as nat, place);
        }
    }
}

impl<T> HistoryEvent<T> {
    /// The values of an event stand at the ticks from its start on, in their order.
    pub proof fn law_values_follow_start(&self, place: int)
        requires
            0 <= place < self.values().len(),
            self.start().0 + self.values().len() <= u64::MAX,
        ensures
            self.entries().len() == self.values().len(),
            self.entries()[place].0.0 == self.start().0 + place,
            self.entries()[place].1 == self.values()[place],
    {
    }
}

impl<T> HistoryView<T> {
    /// What is left of a history in a range holds, at each tick of the range, what was there,
    /// and nothing at any other tick.
    pub proof fn law_trimmed_holds_the_range(
        self,
        range: TickRange,
        after: Self,
        timestamp: TimeStamp,
    )
        requires
            self.consistent(),
            after.consistent(),
            after.all_entries() == self.entries(range),
        ensures
            range.spec_contains(timestamp) ==> after.at(timestamp) == self.at(timestamp),
            !range.spec_contains(timestamp) ==> after.at(timestamp) is None,
    {
        let full = TickRange { start: TickBound::Unbounded, end: TickBound::Unbounded };
        after.lemma_full_entries();
        if let Some(value) = after.at(timestamp) {
            after.law_entries_are_held(full, timestamp, value);
            self.law_entries_are_held(range, timestamp, value);
        }
        if let Some(value) = self.at(timestamp) {
            self.law_entries_are_held(range, timestamp, value);
            after.law_entries_are_held(full, timestamp, value);
        }
    }
}

/// A gap between the window and a tick is filled up: behind the window with what it ended with,
/// and before it with the value that is put.
pub proof fn law_gaps_are_filled<T: Clone>(
    before: HistoryView<T>,
    timestamp: TimeStamp,
    value: T,
    after: HistoryView<T>,
    other: TimeStamp,
)
    requires
        before.consistent(),
        before.capacity > 0,
        0 < before.items.len() <= before.capacity,
        before.set_to(timestamp, value, after),
    ensures
        before.now.0 < other.0 < timestamp.0 && after.at(other) is Some ==> copy_of(
            before.items.last(),
            after.at(other)->0,
        ),
        timestamp.0 <= other.0 && other.0 + before.items.len() <= before.now.0 && after.at(other)
            is Some ==> copy_of(value, after.at(other)->0),
{
}

} // verus!
