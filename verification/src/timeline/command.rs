//! Timelines of commands that can be done, undone and carried on from tick to tick.

use std::ops::RangeInclusive;
use vstd::prelude::*;
use vstd::std_specs::cmp::{PartialEqSpec, PartialEqSpecImpl};

use crate::buffer::Buffer;
use crate::error::Error;
use crate::label::{label, numeral};
use crate::replication::{DefaultReplicable, LosslessReplicable, Replicable};
use crate::timeline::history::{
    copy_of, tick_count, HistoryBuffer, HistoryView, TickBound, TickRange,
};
use crate::timeline::time::{saturating_difference, saturating_sum, TimeStamp};
use crate::wire::{failure, Applied, Emitted};

verus! {

/// Tells the commands of a frame apart.
#[derive(Debug, Clone, Copy, PartialEq, Eq, PartialOrd, Ord, Hash, Structural)]
pub struct CommandId(pub u64);

impl CommandId {
    pub fn new(id: u64) -> (result: Self)
        ensures
            result.0 == id,
    {
        CommandId(id)
    }

    pub fn id(&self) -> (result: u64)
        ensures
            result == self.0,
    {
        self.0
    }

    /// The id as text.
    pub fn to_text(&self) -> (result: String)
        ensures
            result@ == "#command:"@ + numeral(self.0 as nat),
    {
        label("#command:", self.0 as u128)
    }
}

impl Default for CommandId {
    fn default() -> (result: Self)
        ensures
            result.0 == 0,
    {
        CommandId(0)
    }
}

/// Something that happens over a number of ticks and can be taken back.
pub trait Command: Clone + Sized {
    /// What commands work on.
    type Context;

    /// Whether doing the command can turn it and the context into these.
    spec fn does(self, context: Self::Context, after: Self, context_after: Self::Context) -> bool;

    /// Whether undoing the command can turn it and the context into these.
    spec fn undoes(
        self,
        context: Self::Context,
        after: Self,
        context_after: Self::Context,
    ) -> bool;

    fn on_do(&mut self, context: &mut Self::Context) -> (result: Result<(), Error>)
        ensures
            old(self).does(*old(context), *final(self), *final(context)),
    ;

    fn on_undo(&mut self, context: &mut Self::Context) -> (result: Result<(), Error>)
        ensures
            old(self).undoes(*old(context), *final(self), *final(context)),
    ;

    /// What the command is on the next tick, if it goes on.
    fn tick(&self) -> (result: Result<Option<Self>, Error>)
        default_ensures
            result == Ok::<Option<Self>, Error>(None),
    {
        Ok(None)
    }
}

/// A command with its id.
#[derive(Debug)]
pub struct CommandSlot<T: Command> {
    pub id: CommandId,
    pub data: T,
}

impl<T: Command> Clone for CommandSlot<T> {
    fn clone(&self) -> (result: Self)
        ensures
            result.id == self.id,
            cloned::<T>(self.data, result.data),
    {
        CommandSlot { id: self.id, data: self.data.clone() }
    }
}

impl<T: Command + PartialEq> PartialEq for CommandSlot<T> {
    fn eq(&self, other: &Self) -> (result: bool) {
        self.id == other.id && self.data == other.data
    }
}

impl<T: Command + PartialEq> PartialEqSpecImpl for CommandSlot<T> {
    open spec fn obeys_eq_spec() -> bool {
        T::obeys_eq_spec()
    }

    open spec fn eq_spec(&self, other: &Self) -> bool {
        self.id == other.id && self.data.eq_spec(&other.data)
    }
}

/// Whether two slots have the same id and equal commands.
pub open spec fn same_slot<T: Command + PartialEq>(a: CommandSlot<T>, b: CommandSlot<T>) -> bool {
    a.id == b.id && a.data.eq_spec(&b.data)
}

/// The commands of one tick.
#[derive(Debug)]
pub struct CommandFrame<T: Command> {
    /// The id of the next command that is spawned.
    pub id_generator: CommandId,
    pub commands: Vec<CommandSlot<T>>,
}

impl<T: Command> Clone for CommandFrame<T> {
    fn clone(&self) -> (result: Self)
        ensures
            result.id_generator == self.id_generator,
            slots_cloned(self.commands@, result.commands@),
    {
        let mut commands: Vec<CommandSlot<T>> = Vec::new();
        let mut index: usize = 0;
        while index < self.commands.len()
            invariant
                index <= self.commands@.len(),
                commands@.len() == index,
                forall|i: int|
                    0 <= i < index ==> slot_cloned(self.commands@[i], #[trigger] commands@[i]),
            decreases self.commands@.len() - index,
        {
            commands.push(self.commands[index].clone());
            index = index + 1;
        }
        CommandFrame { id_generator: self.id_generator, commands }
    }
}

/// Whether `copy` is a clone of `slot`.
pub open spec fn slot_cloned<T: Command>(slot: CommandSlot<T>, copy: CommandSlot<T>) -> bool {
    copy.id == slot.id && cloned::<T>(slot.data, copy.data)
}

/// Whether `copies` are clones of `slots`, one by one.
pub open spec fn slots_cloned<T: Command>(
    slots: Seq<CommandSlot<T>>,
    copies: Seq<CommandSlot<T>>,
) -> bool {
    &&& copies.len() == slots.len()
    &&& forall|i: int| 0 <= i < slots.len() ==> slot_cloned(slots[i], #[trigger] copies[i])
}

impl<T: Command + PartialEq> PartialEq for CommandFrame<T> {
    fn eq(&self, other: &Self) -> (result: bool) {
        if self.id_generator != other.id_generator || self.commands.len() != other.commands.len() {
            return false;
        }
        let mut index: usize = 0;
        while index < self.commands.len()
            invariant
                index <= self.commands@.len() == other.commands@.len(),
                self.id_generator == other.id_generator,
                T::obeys_eq_spec() ==> forall|i: int|
                    0 <= i < index ==> same_slot(
                        #[trigger] self.commands@[i],
                        other.commands@[i],
                    ),
            decreases self.commands@.len() - index,
        {
            let mine = &self.commands[index];
            let theirs = &other.commands[index];
            if !(mine.id == theirs.id && mine.data == theirs.data) {
                assert(T::obeys_eq_spec() ==> !same_slot(
                    self.commands@[index as int],
                    other.commands@[index as int],
                ));
                return false;
            }
            index = index + 1;
        }
        true
    }
}

impl<T: Command + PartialEq> PartialEqSpecImpl for CommandFrame<T> {
    open spec fn obeys_eq_spec() -> bool {
        T::obeys_eq_spec()
    }

    open spec fn eq_spec(&self, other: &Self) -> bool {
        &&& self.id_generator == other.id_generator
        &&& self.commands@.len() == other.commands@.len()
        &&& forall|i: int|
            0 <= i < self.commands@.len() ==> same_slot(
                #[trigger] self.commands@[i],
                other.commands@[i],
            )
    }
}

impl<T: Command> Default for CommandFrame<T> {
    fn default() -> (result: Self)
        ensures
            result.id_generator.0 == 0,
            result.commands@ == Seq::<CommandSlot<T>>::empty(),
    {
        CommandFrame { id_generator: CommandId(0), commands: Vec::new() }
    }
}

/// Whether one of `slots` has the given id.
pub open spec fn has_id<T: Command>(slots: Seq<CommandSlot<T>>, id: CommandId) -> bool {
    exists|i: int| 0 <= i < slots.len() && (#[trigger] slots[i]).id == id
}

/// Whether the first of `slots` with the given id stands at `place`.
pub open spec fn is_first_with_id<T: Command>(
    slots: Seq<CommandSlot<T>>,
    id: CommandId,
    place: int,
) -> bool {
    &&& 0 <= place < slots.len()
    &&& slots[place].id == id
    &&& forall|i: int| 0 <= i < place ==> (#[trigger] slots[i]).id != id
}

/// Whether carrying `slots` on to the next tick can give `result`: what is left of them, or
/// the failure of the first that fails.
pub open spec fn ticked<T: Command>(
    slots: Seq<CommandSlot<T>>,
    result: Result<Seq<CommandSlot<T>>, Error>,
) -> bool
    decreases slots.len(),
{
    if slots.len() == 0 {
        result == Ok::<Seq<CommandSlot<T>>, Error>(Seq::empty())
    } else {
        exists|before: Result<Seq<CommandSlot<T>>, Error>|
            ticked(slots.drop_last(), before) && #[trigger] slot_ticked_behind(
                slots.last(),
                before,
                result,
            )
    }
}

/// Whether carrying `slot` on behind others, of which `before` is left, can give `result`.
pub open spec fn slot_ticked_behind<T: Command>(
    slot: CommandSlot<T>,
    before: Result<Seq<CommandSlot<T>>, Error>,
    result: Result<Seq<CommandSlot<T>>, Error>,
) -> bool {
    match before {
        Err(error) => result == Err::<Seq<CommandSlot<T>>, Error>(error),
        Ok(kept) => slot_ticked(slot, kept, result),
    }
}

/// Whether carrying `slot` on behind those that were `kept` can give `result`.
pub open spec fn slot_ticked<T: Command>(
    slot: CommandSlot<T>,
    kept: Seq<CommandSlot<T>>,
    result: Result<Seq<CommandSlot<T>>, Error>,
) -> bool {
    exists|next: Result<Option<T>, Error>| #[trigger]
        call_ensures(T::tick, (&slot.data,), next) && match next {
            Err(error) => result == Err::<Seq<CommandSlot<T>>, Error>(error),
            Ok(None) => result == Ok::<Seq<CommandSlot<T>>, Error>(kept),
            Ok(Some(data)) => result == Ok::<Seq<CommandSlot<T>>, Error>(
                kept.push(CommandSlot { id: slot.id, data }),
            ),
        }
}

proof fn lemma_ticked_failed<T: Command>(slots: Seq<CommandSlot<T>>, index: int, error: Error)
    requires
        0 <= index <= slots.len(),
        ticked(slots.take(index), Err(error)),
    ensures
        ticked(slots, Err(error)),
    decreases slots.len() - index,
{
    if index < slots.len() {
        assert(slots.take(index + 1).drop_last() =~= slots.take(index));
        assert(slot_ticked_behind(slots.take(index + 1).last(), Err(error), Err(error)));
        assert(ticked(slots.take(index + 1), Err(error)));
        lemma_ticked_failed(slots, index + 1, error);
    } else {
        assert(slots.take(index) =~= slots);
    }
}

/// What a list of slots is in contracts.
pub open spec fn list_of<T: Command>(result: Result<Vec<CommandSlot<T>>, Error>) -> Result<
    Seq<CommandSlot<T>>,
    Error,
> {
    match result {
        Ok(slots) => Ok(slots@),
        Err(error) => Err(error),
    }
}

/// Carries commands on to the next tick.
fn tick_commands<T: Command>(slots: &Vec<CommandSlot<T>>) -> (result: Result<
    Vec<CommandSlot<T>>,
    Error,
>)
    ensures
        ticked(slots@, list_of(result)),
{
    let mut kept: Vec<CommandSlot<T>> = Vec::new();
    let mut index: usize = 0;
    assert(slots@.take(0) =~= Seq::empty());
    assert(kept@ =~= Seq::empty());
    while index < slots.len()
        invariant
            index <= slots@.len(),
            ticked(slots@.take(index as int), Ok(kept@)),
        decreases slots@.len() - index,
    {
        let ghost before = kept@;
        let ghost next_slots = slots@.take(index + 1);
        assert(next_slots.drop_last() =~= slots@.take(index as int));
        assert(next_slots.last() == slots@[index as int]);
        let next = slots[index].data.tick();
        assert(call_ensures(T::tick, (&slots@[index as int].data,), next));
        match next {
            Ok(Some(data)) => {
                kept.push(CommandSlot { id: slots[index].id, data });
                assert(slot_ticked_behind(next_slots.last(), Ok(before), Ok(kept@)));
                assert(ticked(next_slots, Ok(kept@)));
            },
            Ok(None) => {
                assert(slot_ticked_behind(next_slots.last(), Ok(before), Ok(kept@)));
                assert(ticked(next_slots, Ok(kept@)));
            },
            Err(error) => {
                proof {
                    assert(slot_ticked_behind(next_slots.last(), Ok(before), Err(error)));
                    assert(ticked(next_slots, Err(error)));
                    lemma_ticked_failed(slots@, index + 1, error);
                }
                return Err(error);
            },
        }
        index = index + 1;
    }
    assert(slots@.take(index as int) =~= slots@);
    Ok(kept)
}

/// Whether doing `slots` one after the other can turn them and the context into these.
pub open spec fn done<T: Command>(
    slots: Seq<CommandSlot<T>>,
    context: T::Context,
    after: Seq<CommandSlot<T>>,
    context_after: T::Context,
) -> bool
    decreases slots.len(),
{
    &&& after.len() == slots.len()
    &&& if slots.len() == 0 {
        context_after == context
    } else {
        &&& after.last().id == slots.last().id
        &&& exists|between: T::Context|
            {
                &&& done(slots.drop_last(), context, after.drop_last(), between)
                &&& #[trigger] slots.last().data.does(between, after.last().data, context_after)
            }
    }
}

/// Whether undoing `slots` one after the other can turn them and the context into these.
pub open spec fn undone<T: Command>(
    slots: Seq<CommandSlot<T>>,
    context: T::Context,
    after: Seq<CommandSlot<T>>,
    context_after: T::Context,
) -> bool
    decreases slots.len(),
{
    &&& after.len() == slots.len()
    &&& if slots.len() == 0 {
        context_after == context
    } else {
        &&& after.last().id == slots.last().id
        &&& exists|between: T::Context|
            {
                &&& undone(slots.drop_last(), context, after.drop_last(), between)
                &&& #[trigger] slots.last().data.undoes(between, after.last().data, context_after)
            }
    }
}

/// Does commands in order, whether or not they fail.
fn do_commands<T: Command>(slots: &mut Vec<CommandSlot<T>>, context: &mut T::Context)
    ensures
        done(old(slots)@, *old(context), final(slots)@, *final(context)),
{
    let ghost start = slots@;
    let ghost start_context = *context;
    let mut index: usize = 0;
    assert(start.take(0) =~= Seq::empty());
    assert(slots@.take(0) =~= Seq::empty());
    while index < slots.len()
        invariant
            index <= slots@.len() == start.len(),
            done(start.take(index as int), start_context, slots@.take(index as int), *context),
            forall|i: int| index <= i < start.len() ==> slots@[i] == start[i],
        decreases slots@.len() - index,
    {
        let ghost before = slots@;
        let ghost between = *context;
        let _ = slots[index].data.on_do(context);
        proof {
            let earlier = start.take(index + 1);
            let later = slots@.take(index + 1);
            assert(earlier.drop_last() =~= start.take(index as int));
            assert(later.drop_last() =~= before.take(index as int));
            assert(done(earlier.drop_last(), start_context, later.drop_last(), between));
            assert(earlier.last().data.does(between, later.last().data, *context));
            assert(done(earlier, start_context, later, *context));
        }
        index = index + 1;
    }
    assert(start.take(index as int) =~= start);
    assert(slots@.take(index as int) =~= slots@);
}

/// Undoes commands from the last to the first, whether or not they fail.
fn undo_commands<T: Command>(slots: &mut Vec<CommandSlot<T>>, context: &mut T::Context)
    ensures
        undone(old(slots)@.reverse(), *old(context), final(slots)@.reverse(), *final(context)),
{
    let ghost start = slots@;
    let ghost start_context = *context;
    let mut left: usize = slots.len();
    assert(start.reverse().take(0) =~= Seq::empty());
    while left > 0
        invariant
            left <= slots@.len() == start.len(),
            undone(
                start.reverse().take(start.len() - left),
                start_context,
                slots@.reverse().take(start.len() - left),
                *context,
            ),
            forall|i: int| 0 <= i < left ==> slots@[i] == start[i],
        decreases left,
    {
        let ghost before = slots@;
        let ghost between = *context;
        left = left - 1;
        let _ = slots[left].data.on_undo(context);
        proof {
            let earlier = start.reverse().take(start.len() - left);
            let later = slots@.reverse().take(start.len() - left);
            assert(earlier.drop_last() =~= start.reverse().take(start.len() - left - 1));
            assert(later.drop_last() =~= before.reverse().take(start.len() - left - 1));
            assert(undone(earlier.drop_last(), start_context, later.drop_last(), between));
            assert(earlier.last().data.undoes(between, later.last().data, *context));
            assert(undone(earlier, start_context, later, *context));
        }
    }
    assert(start.reverse().take(start.len() as int) =~= start.reverse());
    assert(slots@.reverse().take(start.len() as int) =~= slots@.reverse());
}

/// A history of command frames, as contracts see it.
pub type CommandHistoryView<T> = HistoryView<CommandFrame<T>>;

/// The tick after `timestamp`.
pub open spec fn next_tick(timestamp: TimeStamp) -> TimeStamp {
    TimeStamp(saturating_sum(timestamp.0, 1))
}

/// The tick before `timestamp`.
pub open spec fn previous_tick(timestamp: TimeStamp) -> TimeStamp {
    TimeStamp(saturating_difference(timestamp.0, 1))
}

impl<T: Command> HistoryView<CommandFrame<T>> {
    /// The first tick of the window, or zero.
    pub open spec fn past_or_zero(self) -> TimeStamp {
        if self.items.len() == 0 {
            TimeStamp(0)
        } else {
            TimeStamp(self.first_tick())
        }
    }

    /// The last tick of the window, or zero.
    pub open spec fn now_or_zero(self) -> TimeStamp {
        if self.items.len() == 0 {
            TimeStamp(0)
        } else {
            self.now
        }
    }

    /// Whether there is room for the frame behind that at `timestamp`, if there is one.
    pub open spec fn accepts_tick(self, timestamp: TimeStamp) -> bool {
        self.at(timestamp) is Some ==> self.accepts(next_tick(timestamp))
    }

    /// Whether putting a frame of these commands at `timestamp` can give `after`.
    pub open spec fn frame_set(
        self,
        timestamp: TimeStamp,
        id_generator: CommandId,
        commands: Seq<CommandSlot<T>>,
        after: Self,
    ) -> bool {
        exists|frame: CommandFrame<T>|
            {
                &&& frame.id_generator == id_generator
                &&& frame.commands@ == commands
                &&& #[trigger] self.set_to(timestamp, frame, after)
            }
    }

    /// Whether carrying the frame `from` on to tick `to` can give `after`, or fail with
    /// `error` and change nothing.
    pub open spec fn carried_on(
        self,
        from: CommandFrame<T>,
        to: TimeStamp,
        after: Self,
        error: Option<Error>,
    ) -> bool {
        exists|left: Result<Seq<CommandSlot<T>>, Error>|
            {
                &&& #[trigger] ticked(from.commands@, left)
                &&& match left {
                    Ok(commands) => error is None && self.frame_set(
                        to,
                        from.id_generator,
                        commands,
                        after,
                    ),
                    Err(reason) => error == Some(reason) && after == self,
                }
            }
    }

    /// Whether carrying the commands of tick `timestamp` on to the next can give `after`, or
    /// fail with `error` and change nothing.
    pub open spec fn tick_step(self, timestamp: TimeStamp, after: Self, error: Option<Error>) -> bool {
        match self.at(timestamp) {
            None => after == self && error == Some(Error::NoFrame(timestamp.0)),
            Some(frame) => self.carried_on(frame, next_tick(timestamp), after, error),
        }
    }

    /// Whether carrying the commands on over `count` ticks from `from` on can give `after`,
    /// or end early with `error`.
    pub open spec fn tick_steps(self, from: u64, count: nat, after: Self, error: Option<Error>) -> bool
        decreases count,
    {
        if count == 0 {
            after == self && error is None
        } else {
            exists|between: Self, earlier: Option<Error>|
                {
                    &&& self.tick_steps(from, (count - 1) as nat, between, earlier)
                    &&& #[trigger] between.tick_step_behind(
                        TimeStamp((from + count - 1) as u64),
                        earlier,
                        after,
                        error,
                    )
                }
        }
    }

    /// One more step behind others that may have ended early.
    pub open spec fn tick_step_behind(
        self,
        timestamp: TimeStamp,
        earlier: Option<Error>,
        after: Self,
        error: Option<Error>,
    ) -> bool {
        match earlier {
            Some(reason) => after == self && error == Some(reason),
            None => self.tick_step(timestamp, after, error),
        }
    }

    /// Whether there is room for all frames when commands are carried on over `count` ticks.
    pub open spec fn accepts_ticking(self, from: u64, count: nat) -> bool {
        forall|steps: nat, between: Self|
            steps < count && #[trigger] self.tick_steps(from, steps, between, None)
                ==> between.accepts_tick(TimeStamp((from + steps) as u64))
    }

    /// Carrying commands on does not change the capacity.
    pub proof fn lemma_ticking_keeps_capacity(
        self,
        from: u64,
        count: nat,
        after: Self,
        error: Option<Error>,
    )
        requires
            self.tick_steps(from, count, after, error),
        ensures
            after.capacity == self.capacity,
        decreases count,
    {
        if count > 0 {
            let (between, earlier) = choose|between: Self, earlier: Option<Error>|
                {
                    &&& self.tick_steps(from, (count - 1) as nat, between, earlier)
                    &&& #[trigger] between.tick_step_behind(
                        TimeStamp((from + count - 1) as u64),
                        earlier,
                        after,
                        error,
                    )
                };
            self.lemma_ticking_keeps_capacity(from, (count - 1) as nat, between, earlier);
        }
    }

    /// A history with any capacity has room for all frames.
    pub proof fn law_room_for_ticking(self, from: u64, count: nat)
        requires
            self.capacity > 0,
        ensures
            self.accepts_ticking(from, count),
    {
        assert forall|steps: nat, between: Self|
            steps < count && #[trigger] self.tick_steps(
                from,
                steps,
                between,
                None,
            ) implies between.accepts_tick(TimeStamp((from + steps) as u64)) by {
            self.lemma_ticking_keeps_capacity(from, steps, between, None);
        }
    }

    proof fn lemma_ticking_failed(
        self,
        from: u64,
        count: nat,
        more: nat,
        after: Self,
        error: Error,
    )
        requires
            count <= more,
            self.tick_steps(from, count, after, Some(error)),
        ensures
            self.tick_steps(from, more, after, Some(error)),
        decreases more,
    {
        if count < more {
            self.lemma_ticking_failed(from, count, (more - 1) as nat, after, error);
            assert(after.tick_step_behind(
                TimeStamp((from + more - 1) as u64),
                Some(error),
                after,
                Some(error),
            ));
        }
    }

    /// Whether doing the commands of the frame at `timestamp` can turn the history and the
    /// context into these.
    pub open spec fn do_step(
        self,
        context: T::Context,
        timestamp: TimeStamp,
        after: Self,
        context_after: T::Context,
    ) -> bool {
        &&& self.frame_replaced(timestamp, after)
        &&& done(
            self.at(timestamp)->0.commands@,
            context,
            after.at(timestamp)->0.commands@,
            context_after,
        )
    }

    /// Whether undoing the commands of the frame at `timestamp`, last first, can turn the
    /// history and the context into these.
    pub open spec fn undo_step(
        self,
        context: T::Context,
        timestamp: TimeStamp,
        after: Self,
        context_after: T::Context,
    ) -> bool {
        &&& self.frame_replaced(timestamp, after)
        &&& undone(
            self.at(timestamp)->0.commands@.reverse(),
            context,
            after.at(timestamp)->0.commands@.reverse(),
            context_after,
        )
    }

    /// Whether `after` differs in nothing but the commands of the frame at `timestamp`.
    pub open spec fn frame_replaced(self, timestamp: TimeStamp, after: Self) -> bool {
        &&& self.at(timestamp) is Some
        &&& after.capacity == self.capacity
        &&& after.now == self.now
        &&& after.items.len() == self.items.len()
        &&& after.at(timestamp) is Some
        &&& after.at(timestamp)->0.id_generator == self.at(timestamp)->0.id_generator
        &&& after.items == self.items.update(
            timestamp.0 - self.first_tick(),
            after.at(timestamp)->0,
        )
    }

    /// Whether doing the frames of `count` ticks from `from` on can turn the history and the
    /// context into these.
    pub open spec fn do_steps(
        self,
        context: T::Context,
        from: u64,
        count: nat,
        after: Self,
        context_after: T::Context,
    ) -> bool
        decreases count,
    {
        if count == 0 {
            after == self && context_after == context
        } else {
            exists|between: Self, context_between: T::Context|
                {
                    &&& self.do_steps(context, from, (count - 1) as nat, between, context_between)
                    &&& #[trigger] between.do_step(
                        context_between,
                        TimeStamp((from + count - 1) as u64),
                        after,
                        context_after,
                    )
                }
        }
    }

    /// Whether undoing the frames of `count` ticks back from `last` can turn the history and
    /// the context into these.
    pub open spec fn undo_steps(
        self,
        context: T::Context,
        last: u64,
        count: nat,
        after: Self,
        context_after: T::Context,
    ) -> bool
        decreases count,
    {
        if count == 0 {
            after == self && context_after == context
        } else {
            exists|between: Self, context_between: T::Context|
                {
                    &&& self.undo_steps(context, last, (count - 1) as nat, between, context_between)
                    &&& #[trigger] between.undo_step(
                        context_between,
                        TimeStamp((last - (count - 1)) as u64),
                        after,
                        context_after,
                    )
                }
        }
    }

    /// The first tick of `range` in the window, and the first behind those of `range` that
    /// are done: the last tick of the range is not among them.
    pub open spec fn done_range(self, range: TickRange) -> (u64, u64) {
        let first = range.first_tick(self.past_or_zero()).0;
        let last = range.last_tick(self.now_or_zero()).0;
        (
            if first >= self.past_or_zero().0 {
                first
            } else {
                self.past_or_zero().0
            },
            if last <= self.now_or_zero().0 {
                last
            } else {
                self.now_or_zero().0
            },
        )
    }

    /// The first and the last tick that is carried on over `range`.
    pub open spec fn ticked_range(self, range: TickRange) -> (u64, u64) {
        let first = range.first_tick(self.past_or_zero()).0;
        (
            if first >= self.past_or_zero().0 {
                first
            } else {
                self.past_or_zero().0
            },
            range.last_tick(self.now_or_zero()).0,
        )
    }

    /// Whether `after` is what is left of the history in `range`.
    pub open spec fn trimmed_to(self, range: TickRange, after: Self) -> bool {
        &&& after.consistent()
        &&& after.capacity == self.capacity
        &&& after.all_entries() == self.entries(range)
        &&& after.items.len() == 0 ==> after.now == self.now
    }

    /// A history that holds one frame without commands at tick zero.
    pub open spec fn is_fresh(self, capacity: usize) -> bool {
        &&& self.capacity == capacity
        &&& self.items.len() == 1
        &&& self.items[0].id_generator.0 == 0
        &&& self.items[0].commands@ == Seq::<CommandSlot<T>>::empty()
        &&& self.now.0 == 0
    }
}

/// How many ticks lie from `from` up to `end`, which is not counted.
pub open spec fn ticks_before(from: u64, end: u64) -> nat {
    if from < end {
        (end - from) as nat
    } else {
        0
    }
}

/// A history of commands.
#[derive(Debug, Clone, PartialEq)]
pub struct CommandHistoryBuffer<T: Command> {
    history: HistoryBuffer<CommandFrame<T>>,
}

impl<T: Command> View for CommandHistoryBuffer<T> {
    type V = HistoryView<CommandFrame<T>>;

    closed spec fn view(&self) -> HistoryView<CommandFrame<T>> {
        self.history@
    }
}

impl<T: Command> CommandHistoryBuffer<T> {
    /// A history that keeps up to `capacity` frames and has one for tick zero.
    pub fn with_capacity(capacity: usize) -> (result: Self)
        ensures
            result@.is_fresh(capacity),
    {
        let mut history: HistoryBuffer<CommandFrame<T>> = HistoryBuffer::with_capacity(capacity);
        history.set(TimeStamp(0), CommandFrame::default());
        CommandHistoryBuffer { history }
    }

    /// A history that keeps all frames and has one for tick zero.
    pub fn without_capacity() -> (result: Self)
        ensures
            result@.is_fresh(usize::MAX),
    {
        Self::with_capacity(usize::MAX)
    }

    /// Clones the frames of `range` into `other`.
    pub fn clone_to(&self, other: &mut Self, range: TickRange)
        requires
            old(other)@.accepts_all(self@.entries(range)),
        ensures
            old(other)@.set_all(self@.entries(range), final(other)@),
    {
        self.history.clone_to(&mut other.history, range);
    }

    pub fn capacity(&self) -> (result: usize)
        ensures
            result == self@.capacity,
    {
        self.history.capacity()
    }

    /// Changes how many frames are kept, giving up the earliest where there are more.
    pub fn set_capacity(&mut self, capacity: usize)
        ensures
            final(self)@.capacity == capacity,
            final(self)@.now == old(self)@.now,
            final(self)@.items == old(self)@.items.skip(
                if old(self)@.items.len() > capacity {
                    old(self)@.items.len() - capacity
                } else {
                    0
                },
            ),
    {
        self.history.set_capacity(capacity);
    }

    /// Drops the frames outside `range` and carries the last one on.
    pub fn set_range(&mut self, range: TickRange) -> (result: Result<(), Error>)
        requires
            old(self)@.consistent(),
            forall|between: HistoryView<CommandFrame<T>>| #[trigger]
                old(self)@.trimmed_to(range, between) ==> between.accepts_tick(
                    between.now_or_zero(),
                ),
        ensures
            exists|between: HistoryView<CommandFrame<T>>|
                {
                    &&& #[trigger] old(self)@.trimmed_to(range, between)
                    &&& between.tick_step(between.now_or_zero(), final(self)@, failure(result))
                },
    {
        let ghost before = self@;
        self.history.set_range(range);
        assert(before.trimmed_to(range, self@));
        let now = match self.history.now() {
            Some(now) => now,
            None => TimeStamp(0),
        };
        self.tick_once(now)
    }

    pub fn now(&self) -> (result: Option<TimeStamp>)
        ensures
            result == if self@.items.len() == 0 {
                None::<TimeStamp>
            } else {
                Some(self@.now)
            },
    {
        self.history.now()
    }

    pub fn past(&self) -> (result: Option<TimeStamp>)
        ensures
            result == if self@.items.len() == 0 {
                None::<TimeStamp>
            } else {
                Some(TimeStamp(self@.first_tick()))
            },
    {
        self.history.past()
    }

    pub fn range(&self) -> (result: Option<RangeInclusive<TimeStamp>>)
        ensures
            result is None <==> self@.items.len() == 0,
            result matches Some(range) ==> {
                &&& range@.start.0 == self@.first_tick()
                &&& range@.end == self@.now
                &&& !range@.exhausted
            },
    {
        self.history.range()
    }

    pub fn is_empty(&self) -> (result: bool)
        ensures
            result == (self@.items.len() == 0),
    {
        self.history.is_empty()
    }

    pub fn len(&self) -> (result: usize)
        ensures
            result == self@.items.len(),
    {
        self.history.len()
    }

    /// The frames whose ticks lie in `range`, with their ticks, in order of time.
    pub fn iter(&self, range: TickRange) -> (result: Vec<(TimeStamp, &CommandFrame<T>)>)
        ensures
            result@.len() == self@.entries(range).len(),
            forall|i: int|
                0 <= i < result@.len() ==> {
                    &&& (#[trigger] result@[i]).0 == self@.entries(range)[i].0
                    &&& *result@[i].1 == self@.entries(range)[i].1
                },
    {
        self.history.iter(range)
    }

    /// The frame at `timestamp`.
    pub fn frame(&self, timestamp: TimeStamp) -> (result: Option<&CommandFrame<T>>)
        ensures
            result is None <==> self@.at(timestamp) is None,
            result matches Some(frame) ==> self@.at(timestamp) == Some(*frame),
    {
        self.history.get(timestamp)
    }

    /// The first command with the given id at `timestamp`.
    pub fn command(&self, timestamp: TimeStamp, id: CommandId) -> (result: Option<&T>)
        ensures
            result is Some <==> self@.at(timestamp) is Some && has_id(
                self@.at(timestamp)->0.commands@,
                id,
            ),
            result matches Some(data) ==> exists|i: int| #[trigger]
                is_first_with_id(self@.at(timestamp)->0.commands@, id, i) && self@.at(
                    timestamp,
                )->0.commands@[i].data == *data,
    {
        match self.history.get(timestamp) {
            Some(frame) => {
                let mut index: usize = 0;
                while index < frame.commands.len()
                    invariant
                        index <= frame.commands@.len(),
                        self@.at(timestamp) == Some(*frame),
                        forall|j: int| 0 <= j < index ==> (#[trigger] frame.commands@[j]).id != id,
                    decreases frame.commands@.len() - index,
                {
                    if frame.commands[index].id == id {
                        assert(is_first_with_id(frame.commands@, id, index as int));
                        return Some(&frame.commands[index].data);
                    }
                    index = index + 1;
                }
                None
            },
            None => None,
        }
    }

    /// The commands at `timestamp`.
    pub fn commands(&self, timestamp: TimeStamp) -> (result: Vec<&T>)
        ensures
            self@.at(timestamp) is None ==> result@.len() == 0,
            self@.at(timestamp) matches Some(frame) ==> {
                &&& result@.len() == frame.commands@.len()
                &&& forall|i: int|
                    0 <= i < result@.len() ==> *(#[trigger] result@[i]) == frame.commands@[i].data
            },
    {
        let mut result: Vec<&T> = Vec::new();
        match self.history.get(timestamp) {
            Some(frame) => {
                let mut index: usize = 0;
                while index < frame.commands.len()
                    invariant
                        index <= frame.commands@.len(),
                        result@.len() == index,
                        forall|i: int|
                            0 <= i < index ==> *(#[trigger] result@[i]) == frame.commands@[i].data,
                    decreases frame.commands@.len() - index,
                {
                    result.push(&frame.commands[index].data);
                    index = index + 1;
                }
            },
            None => {},
        }
        result
    }

    /// Forgets all frames and starts over at tick zero.
    pub fn clear(&mut self)
        ensures
            final(self)@.is_fresh(old(self)@.capacity),
    {
        self.history.clear();
        self.history.set(TimeStamp(0), CommandFrame::default());
    }

    /// Whether there is a frame at `timestamp`.
    pub fn has(&self, timestamp: TimeStamp) -> (result: bool)
        ensures
            result == (self@.at(timestamp) is Some),
    {
        self.history.has(timestamp)
    }

    /// Whether there is a command with the given id at `timestamp`.
    pub fn has_command(&self, timestamp: TimeStamp, id: CommandId) -> (result: bool)
        ensures
            result == (self@.at(timestamp) is Some && has_id(self@.at(timestamp)->0.commands@, id)),
    {
        self.command(timestamp, id).is_some()
    }

    /// The first tick that both histories cover and at which their frames differ.
    pub fn divergence(&self, other: &Self) -> (result: Option<TimeStamp>) where T: PartialEq
        ensures
            self@.diverges_from(other@, result),
    {
        self.history.divergence(&other.history)
    }

    /// Adds a command to the frame at `timestamp`, under the next free id.
    pub fn spawn(&mut self, timestamp: TimeStamp, command: T) -> (result: Result<CommandId, Error>)
        requires
            old(self)@.at(timestamp) matches Some(frame) ==> frame.id_generator.0 < u64::MAX,
        ensures
            match old(self)@.at(timestamp) {
                None => {
                    &&& result == Err::<CommandId, Error>(Error::NoFrame(timestamp.0))
                    &&& final(self)@ == old(self)@
                },
                Some(frame) => {
                    &&& result == Ok::<CommandId, Error>(frame.id_generator)
                    &&& final(self)@.capacity == old(self)@.capacity
                    &&& final(self)@.now == old(self)@.now
                    &&& exists|changed: CommandFrame<T>|
                        {
                            &&& changed.id_generator.0 == frame.id_generator.0 + 1
                            &&& changed.commands@ == frame.commands@.push(
                                CommandSlot { id: frame.id_generator, data: command },
                            )
                            &&& final(self)@.items == #[trigger] old(self)@.items.update(
                                timestamp.0 - old(self)@.first_tick(),
                                changed,
                            )
                        }
                },
            },
    {
        match self.history.get_mut(timestamp) {
            Some(frame) => {
                let id = frame.id_generator;
                frame.id_generator = CommandId(id.0 + 1);
                frame.commands.push(CommandSlot { id, data: command });
                Ok(id)
            },
            None => Err(Error::NoFrame(timestamp.0)),
        }
    }

    /// Does the commands of the frame at `timestamp`.
    pub fn do_once(&mut self, context: &mut T::Context, timestamp: TimeStamp) -> (result: Result<
        (),
        Error,
    >)
        ensures
            old(self)@.at(timestamp) is None ==> {
                &&& failure(result) == Some(Error::NoFrame(timestamp.0))
                &&& final(self)@ == old(self)@
                &&& *final(context) == *old(context)
            },
            old(self)@.at(timestamp) is Some ==> {
                &&& result is Ok
                &&& old(self)@.do_step(*old(context), timestamp, final(self)@, *final(context))
            },
    {
        match self.history.get_mut(timestamp) {
            Some(frame) => {
                do_commands(&mut frame.commands, context);
                Ok(())
            },
            None => Err(Error::NoFrame(timestamp.0)),
        }
    }

    /// Undoes the commands of the frame at `timestamp`, last first.
    pub fn undo_once(&mut self, context: &mut T::Context, timestamp: TimeStamp) -> (result: Result<
        (),
        Error,
    >)
        ensures
            old(self)@.at(timestamp) is None ==> {
                &&& failure(result) == Some(Error::NoFrame(timestamp.0))
                &&& final(self)@ == old(self)@
                &&& *final(context) == *old(context)
            },
            old(self)@.at(timestamp) is Some ==> {
                &&& result is Ok
                &&& old(self)@.undo_step(*old(context), timestamp, final(self)@, *final(context))
            },
    {
        match self.history.get_mut(timestamp) {
            Some(frame) => {
                undo_commands(&mut frame.commands, context);
                Ok(())
            },
            None => Err(Error::NoFrame(timestamp.0)),
        }
    }

    /// Carries the commands of the frame at `timestamp` on to the next tick.
    pub fn tick_once(&mut self, timestamp: TimeStamp) -> (result: Result<(), Error>)
        requires
            old(self)@.accepts_tick(timestamp),
        ensures
            old(self)@.tick_step(timestamp, final(self)@, failure(result)),
    {
        let ghost before = self@;
        match self.history.get(timestamp) {
            Some(frame) => {
                let ghost current = *frame;
                let left = tick_commands(&frame.commands);
                let id_generator = frame.id_generator;
                assert(ticked(current.commands@, list_of(left)));
                match left {
                    Ok(commands) => {
                        let next = CommandFrame { id_generator, commands };
                        self.history.set(timestamp + 1, next);
                        assert(before.set_to(next_tick(timestamp), next, self@));
                        assert(before.frame_set(
                            next_tick(timestamp),
                            id_generator,
                            commands@,
                            self@,
                        ));
                        Ok(())
                    },
                    Err(error) => Err(error),
                }
            },
            None => Err(Error::NoFrame(timestamp.0)),
        }
    }

    fn past_tick(&self) -> (result: TimeStamp)
        ensures
            result == self@.past_or_zero(),
    {
        match self.past() {
            Some(past) => past,
            None => TimeStamp(0),
        }
    }

    fn now_tick(&self) -> (result: TimeStamp)
        ensures
            result == self@.now_or_zero(),
    {
        match self.now() {
            Some(now) => now,
            None => TimeStamp(0),
        }
    }

    /// Does the frames of `range` in order of time, but for its last tick.
    pub fn do_range(&mut self, context: &mut T::Context, range: TickRange) -> (result: Result<
        (),
        Error,
    >)
        ensures
            result is Ok,
            old(self)@.do_steps(
                *old(context),
                old(self)@.done_range(range).0,
                ticks_before(old(self)@.done_range(range).0, old(self)@.done_range(range).1),
                final(self)@,
                *final(context),
            ),
    {
        let ghost before = self@;
        let ghost before_context = *context;
        let past = self.past_tick();
        let now = self.now_tick();
        let first = range.first_from(past);
        let last = range.last_to(now);
        let from: u64 = if first.0 >= past.0 {
            first.0
        } else {
            past.0
        };
        let end: u64 = if last.0 <= now.0 {
            last.0
        } else {
            now.0
        };
        let mut tick: u64 = from;
        while tick < end
            invariant
                from <= tick,
                from < end ==> tick <= end,
                from >= end ==> tick == from,
                end <= before.now_or_zero().0,
                before.past_or_zero().0 <= from,
                self@.items.len() == before.items.len(),
                self@.now == before.now,
                before.do_steps(
                    before_context,
                    from,
                    (tick - from) as nat,
                    self@,
                    *context,
                ),
            decreases end - tick,
        {
            let ghost between = self@;
            let ghost context_between = *context;
            assert(between.at(TimeStamp(tick)) is Some);
            let _ = self.do_once(context, TimeStamp(tick));
            let ghost count = (tick - from + 1) as nat;
            assert(TimeStamp(tick) == TimeStamp((from + count - 1) as u64));
            assert(between.do_step(
                context_between,
                TimeStamp((from + count - 1) as u64),
                self@,
                *context,
            ));
            assert(before.do_steps(
                before_context,
                from,
                count,
                self@,
                *context,
            ));
            tick = tick + 1;
        }
        Ok(())
    }

    /// Undoes the frames of `range` against the order of time, but for its last tick.
    pub fn undo_range(&mut self, context: &mut T::Context, range: TickRange) -> (result: Result<
        (),
        Error,
    >)
        ensures
            result is Ok,
            old(self)@.undo_steps(
                *old(context),
                saturating_difference(old(self)@.done_range(range).1, 1),
                ticks_before(old(self)@.done_range(range).0, old(self)@.done_range(range).1),
                final(self)@,
                *final(context),
            ),
    {
        let ghost before = self@;
        let ghost before_context = *context;
        let past = self.past_tick();
        let now = self.now_tick();
        let first = range.first_from(past);
        let last = range.last_to(now);
        let from: u64 = if first.0 >= past.0 {
            first.0
        } else {
            past.0
        };
        let end: u64 = if last.0 <= now.0 {
            last.0
        } else {
            now.0
        };
        let mut tick: u64 = end;
        while from < tick
            invariant
                tick <= end,
                from < end ==> from <= tick,
                from >= end ==> tick == end,
                end <= before.now_or_zero().0,
                before.past_or_zero().0 <= from,
                self@.items.len() == before.items.len(),
                self@.now == before.now,
                before.undo_steps(
                    before_context,
                    saturating_difference(end, 1),
                    (end - tick) as nat,
                    self@,
                    *context,
                ),
            decreases tick,
        {
            let ghost between = self@;
            let ghost context_between = *context;
            let ghost count = (end - tick + 1) as nat;
            tick = tick - 1;
            assert(between.at(TimeStamp(tick)) is Some);
            let _ = self.undo_once(context, TimeStamp(tick));
            assert(TimeStamp(tick) == TimeStamp(
                (saturating_difference(end, 1) - (count - 1)) as u64,
            ));
            assert(between.undo_step(context_between, TimeStamp(tick), self@, *context));
            assert(before.undo_steps(
                before_context,
                saturating_difference(end, 1),
                count,
                self@,
                *context,
            ));
        }
        Ok(())
    }

    /// Carries the commands on over the ticks of `range`, in order of time.
    pub fn tick_range(&mut self, range: TickRange) -> (result: Result<(), Error>)
        requires
            old(self)@.accepts_ticking(
                old(self)@.ticked_range(range).0,
                tick_count(old(self)@.ticked_range(range).0, old(self)@.ticked_range(range).1),
            ),
        ensures
            old(self)@.tick_steps(
                old(self)@.ticked_range(range).0,
                tick_count(old(self)@.ticked_range(range).0, old(self)@.ticked_range(range).1),
                final(self)@,
                failure(result),
            ),
    {
        let ghost before = self@;
        let past = self.past_tick();
        let first = range.first_from(past);
        let from: u64 = if first.0 >= past.0 {
            first.0
        } else {
            past.0
        };
        let to: u64 = range.last_to(self.now_tick()).0;
        let ghost total = tick_count(from, to);
        let mut tick: u64 = from;
        while tick <= to
            invariant
                from <= tick,
                before == old(self)@,
                (from, to) == before.ticked_range(range),
                total == tick_count(from, to),
                tick <= to ==> tick - from < total,
                tick > to ==> tick - from == total || total == 0,
                before.accepts_ticking(from, total),
                before.tick_steps(
                    from,
                    if total == 0 {
                        0
                    } else {
                        (tick - from) as nat
                    },
                    self@,
                    None,
                ),
            decreases to - tick + 1,
        {
            let ghost between = self@;
            let ghost count = (tick - from + 1) as nat;
            assert(between.accepts_tick(TimeStamp(tick)));
            match self.tick_once(TimeStamp(tick)) {
                Ok(_) => {
                    assert(between.tick_step_behind(
                        TimeStamp((from + count - 1) as u64),
                        None,
                        self@,
                        None,
                    ));
                    assert(before.tick_steps(from, count, self@, None));
                },
                Err(error) => {
                    proof {
                        assert(between.tick_step_behind(
                            TimeStamp((from + count - 1) as u64),
                            None,
                            self@,
                            Some(error),
                        ));
                        assert(before.tick_steps(from, count, self@, Some(error)));
                        before.lemma_ticking_failed(from, count, total, self@, error);
                    }
                    return Err(error);
                },
            }
            if tick == u64::MAX {
                assert(count == total);
                return Ok(());
            }
            tick = tick + 1;
        }
        Ok(())
    }

    /// Moves the end of the history to `timestamp` and carries the last frame on.
    pub fn time_travel_to(&mut self, timestamp: TimeStamp) -> (result: Result<(), Error>)
        requires
            forall|between: HistoryView<CommandFrame<T>>| #[trigger]
                old(self)@.travelled_to(timestamp, between) ==> between.accepts_tick(
                    between.now_or_zero(),
                ),
        ensures
            exists|between: HistoryView<CommandFrame<T>>|
                {
                    &&& #[trigger] old(self)@.travelled_to(timestamp, between)
                    &&& between.tick_step(between.now_or_zero(), final(self)@, failure(result))
                },
    {
        let ghost before = self@;
        let _ = self.history.time_travel_to(timestamp);
        assert(before.travelled_to(timestamp, self@));
        let now = self.now_tick();
        self.tick_once(now)
    }

    /// Carries the commands on until there is a frame behind `timestamp`, if that lies ahead.
    pub fn ensure_timestamp(&mut self, timestamp: TimeStamp) -> (result: Result<(), Error>)
        requires
            old(self)@.accepts_ticking(
                old(self)@.now_or_zero().0,
                tick_count(old(self)@.now_or_zero().0, timestamp.0),
            ),
        ensures
            timestamp.0 <= old(self)@.now_or_zero().0 ==> result is Ok && final(self)@
                == old(self)@,
            timestamp.0 > old(self)@.now_or_zero().0 ==> old(self)@.tick_steps(
                old(self)@.now_or_zero().0,
                tick_count(old(self)@.now_or_zero().0, timestamp.0),
                final(self)@,
                failure(result),
            ),
    {
        let now = self.now_tick();
        if timestamp.0 > now.0 {
            let range = TickRange::inclusive(now, timestamp);
            assert(self@.ticked_range(range) == (now.0, timestamp.0));
            self.tick_range(range)
        } else {
            Ok(())
        }
    }
}

impl Replicable for CommandId {
    type Model = CommandId;

    open spec fn model(self) -> CommandId {
        self
    }

    open spec fn emit(self) -> Emitted {
        <u64 as Replicable>::emit(self.0)
    }

    open spec fn parse(prior: CommandId, bytes: Seq<u8>) -> Applied<CommandId> {
        let number = <u64 as Replicable>::parse(prior.0, bytes);
        Applied {
            model: CommandId(number.model),
            error: number.error,
            consumed: number.consumed,
        }
    }

    proof fn parse_is_within(prior: CommandId, bytes: Seq<u8>) {
        <u64 as Replicable>::parse_is_within(prior.0, bytes);
    }

    fn collect_changes(&self, buffer: &mut Buffer) -> (result: Result<(), Error>) {
        self.0.collect_changes(buffer)
    }

    fn apply_changes(&mut self, buffer: &mut Buffer) -> (result: Result<(), Error>) {
        self.0.apply_changes(buffer)
    }
}

impl DefaultReplicable for CommandId {
    open spec fn blank() -> CommandId {
        CommandId(0)
    }

    proof fn default_is_blank(value: CommandId) {
    }
}

impl LosslessReplicable for CommandId {
    open spec fn fits(self) -> bool {
        true
    }

    proof fn law_round_trip(self, prior: CommandId, tail: Seq<u8>) {
        <u64 as LosslessReplicable>::law_round_trip(self.0, prior.0, tail);
    }
}

/// One tick of a written history of commands.
#[derive(Debug, Clone, PartialEq)]
pub enum CommandSnapshot<T: Command> {
    /// The whole frame.
    Full(CommandFrame<T>),
    /// The commands of the tick before, carried on.
    SameAsLast,
    /// The commands of the tick before, with some more and without some others.
    DifferentFromLast {
        id_generator: CommandId,
        added: Vec<CommandSlot<T>>,
        removed: Vec<CommandId>,
    },
}

/// A stretch of a history of commands as a value of its own.
#[derive(Debug, Clone, PartialEq)]
pub struct CommandHistoryEvent<T: Command> {
    start: TimeStamp,
    snapshots: Vec<CommandSnapshot<T>>,
}

/// Whether `copy` is a whole clone of `frame`.
pub open spec fn is_full_copy<T: Command>(
    frame: CommandFrame<T>,
    copy: CommandSnapshot<T>,
) -> bool {
    match copy {
        CommandSnapshot::Full(full) => cloned::<CommandFrame<T>>(frame, full),
        _ => false,
    }
}

/// Whether two frames have commands with the same ids in the same order.
pub open spec fn same_ids<T: Command>(a: CommandFrame<T>, b: CommandFrame<T>) -> bool {
    &&& a.id_generator == b.id_generator
    &&& a.commands@.len() == b.commands@.len()
    &&& forall|i: int|
        0 <= i < a.commands@.len() ==> (#[trigger] a.commands@[i]).id == b.commands@[i].id
}

/// Those of `slots` whose ids none of `others` has.
pub open spec fn slots_without<T: Command>(
    slots: Seq<CommandSlot<T>>,
    others: Seq<CommandSlot<T>>,
) -> Seq<CommandSlot<T>> {
    slots.filter(|slot: CommandSlot<T>| !has_id(others, slot.id))
}

/// The ids of slots.
pub open spec fn ids_of<T: Command>(slots: Seq<CommandSlot<T>>) -> Seq<CommandId> {
    slots.map_values(|slot: CommandSlot<T>| slot.id)
}

/// Whether `snapshot` tells what changes from frame `last` to frame `frame`.
pub open spec fn is_delta<T: Command>(
    last: CommandFrame<T>,
    frame: CommandFrame<T>,
    snapshot: CommandSnapshot<T>,
) -> bool {
    if same_ids(last, frame) {
        snapshot == CommandSnapshot::<T>::SameAsLast
    } else {
        match snapshot {
            CommandSnapshot::DifferentFromLast { id_generator, added, removed } => {
                &&& id_generator == frame.id_generator
                &&& slots_cloned(slots_without(frame.commands@, last.commands@), added@)
                &&& removed@ == ids_of(slots_without(last.commands@, frame.commands@))
            },
            _ => false,
        }
    }
}

/// Whether one of the slots has the given id.
fn contains_id<T: Command>(slots: &Vec<CommandSlot<T>>, id: CommandId) -> (result: bool)
    ensures
        result == has_id(slots@, id),
{
    let mut index: usize = 0;
    while index < slots.len()
        invariant
            index <= slots@.len(),
            forall|j: int| 0 <= j < index ==> (#[trigger] slots@[j]).id != id,
        decreases slots@.len() - index,
    {
        if slots[index].id == id {
            assert(slots@[index as int].id == id);
            return true;
        }
        index = index + 1;
    }
    false
}

/// Whether one of `ids` is `id`.
fn lists_id(ids: &Vec<CommandId>, id: CommandId) -> (result: bool)
    ensures
        result == ids@.contains(id),
{
    let mut index: usize = 0;
    while index < ids.len()
        invariant
            index <= ids@.len(),
            forall|j: int| 0 <= j < index ==> ids@[j] != id,
        decreases ids@.len() - index,
    {
        if ids[index] == id {
            return true;
        }
        index = index + 1;
    }
    false
}

/// Clones of those slots whose ids none of `others` has.
fn clone_slots_without<T: Command>(
    slots: &Vec<CommandSlot<T>>,
    others: &Vec<CommandSlot<T>>,
) -> (result: Vec<CommandSlot<T>>)
    ensures
        slots_cloned(slots_without(slots@, others@), result@),
{
    let mut result: Vec<CommandSlot<T>> = Vec::new();
    let mut index: usize = 0;
    let ghost wanted = |slot: CommandSlot<T>| !has_id(others@, slot.id);
    proof {
        assert(slots@.take(0) =~= Seq::empty());
        reveal(Seq::filter);
    }
    while index < slots.len()
        invariant
            index <= slots@.len(),
            wanted == (|slot: CommandSlot<T>| !has_id(others@, slot.id)),
            slots_cloned(slots@.take(index as int).filter(wanted), result@),
        decreases slots@.len() - index,
    {
        proof {
            assert(slots@.take(index + 1).drop_last() =~= slots@.take(index as int));
            reveal(Seq::filter);
        }
        if !contains_id(others, slots[index].id) {
            result.push(slots[index].clone());
        }
        index = index + 1;
    }
    assert(slots@.take(index as int) =~= slots@);
    result
}

/// The ids of those slots whose ids none of `others` has.
fn ids_without<T: Command>(
    slots: &Vec<CommandSlot<T>>,
    others: &Vec<CommandSlot<T>>,
) -> (result: Vec<CommandId>)
    ensures
        result@ == ids_of(slots_without(slots@, others@)),
{
    let mut result: Vec<CommandId> = Vec::new();
    let mut index: usize = 0;
    let ghost wanted = |slot: CommandSlot<T>| !has_id(others@, slot.id);
    proof {
        assert(slots@.take(0) =~= Seq::empty());
        reveal(Seq::filter);
        assert(ids_of(slots@.take(0).filter(wanted)) =~= Seq::empty());
    }
    while index < slots.len()
        invariant
            index <= slots@.len(),
            wanted == (|slot: CommandSlot<T>| !has_id(others@, slot.id)),
            result@ == ids_of(slots@.take(index as int).filter(wanted)),
        decreases slots@.len() - index,
    {
        let ghost before = slots@.take(index as int).filter(wanted);
        proof {
            assert(slots@.take(index + 1).drop_last() =~= slots@.take(index as int));
            reveal(Seq::filter);
        }
        if !contains_id(others, slots[index].id) {
            result.push(slots[index].id);
            assert(ids_of(before.push(slots@[index as int])) =~= result@);
        }
        index = index + 1;
    }
    assert(slots@.take(index as int) =~= slots@);
    result
}

/// Whether two frames have commands with the same ids in the same order.
fn have_same_ids<T: Command>(a: &CommandFrame<T>, b: &CommandFrame<T>) -> (result: bool)
    ensures
        result == same_ids(*a, *b),
{
    if a.id_generator != b.id_generator || a.commands.len() != b.commands.len() {
        return false;
    }
    let mut index: usize = 0;
    while index < a.commands.len()
        invariant
            index <= a.commands@.len() == b.commands@.len(),
            a.id_generator == b.id_generator,
            forall|i: int|
                0 <= i < index ==> (#[trigger] a.commands@[i]).id == b.commands@[i].id,
        decreases a.commands@.len() - index,
    {
        if a.commands[index].id != b.commands[index].id {
            return false;
        }
        index = index + 1;
    }
    true
}

impl<T: Command> CommandHistoryEvent<T> {
    /// The tick of the first snapshot.
    pub closed spec fn first(&self) -> TimeStamp {
        self.start
    }

    /// The snapshots, tick by tick.
    pub closed spec fn list(&self) -> Seq<CommandSnapshot<T>> {
        self.snapshots@
    }

    /// The tick of the last snapshot.
    pub open spec fn last(&self) -> TimeStamp {
        previous_tick(TimeStamp(saturating_sum(self.first().0, self.list().len() as u64)))
    }

    pub fn new(start: TimeStamp, snapshots: Vec<CommandSnapshot<T>>) -> (result: Self)
        ensures
            result.first() == start,
            result.list() == snapshots@,
    {
        CommandHistoryEvent { start, snapshots }
    }

    /// A stretch of one whole frame.
    pub fn single(timestamp: TimeStamp, snapshot: CommandFrame<T>) -> (result: Self)
        ensures
            result.first() == timestamp,
            result.list() == seq![CommandSnapshot::Full(snapshot)],
    {
        let mut snapshots: Vec<CommandSnapshot<T>> = Vec::new();
        snapshots.push(CommandSnapshot::Full(snapshot));
        assert(snapshots@ =~= seq![CommandSnapshot::Full(snapshot)]);
        CommandHistoryEvent { start: timestamp, snapshots }
    }

    pub fn now(&self) -> (result: TimeStamp)
        ensures
            result == self.last(),
    {
        self.start + self.snapshots.len() as u64 - 1
    }

    pub fn past(&self) -> (result: TimeStamp)
        ensures
            result == self.first(),
    {
        self.start
    }

    /// The snapshots, tick by tick.
    pub fn snapshots(&self) -> (result: &Vec<CommandSnapshot<T>>)
        ensures
            result@ == self.list(),
    {
        &self.snapshots
    }

    pub fn range(&self) -> (result: RangeInclusive<TimeStamp>)
        ensures
            result@.start == self.first(),
            result@.end == self.last(),
            !result@.exhausted,
    {
        RangeInclusive::new(self.past(), self.now())
    }

    /// All snapshots with their ticks.
    pub fn iter(&self) -> (result: Vec<(TimeStamp, &CommandSnapshot<T>)>)
        ensures
            result@.len() == self.list().len(),
            forall|i: int|
                0 <= i < result@.len() ==> {
                    &&& (#[trigger] result@[i]).0.0 == saturating_sum(self.first().0, i as u64)
                    &&& *result@[i].1 == self.list()[i]
                },
    {
        let mut result: Vec<(TimeStamp, &CommandSnapshot<T>)> = Vec::new();
        let mut index: usize = 0;
        while index < self.snapshots.len()
            invariant
                index <= self.snapshots@.len(),
                result@.len() == index,
                forall|i: int|
                    0 <= i < index ==> {
                        &&& (#[trigger] result@[i]).0.0 == saturating_sum(self.start.0, i as u64)
                        &&& *result@[i].1 == self.snapshots@[i]
                    },
            decreases self.snapshots@.len() - index,
        {
            result.push((self.start + index as u64, &self.snapshots[index]));
            index = index + 1;
        }
        result
    }
}

/// Whether `result` is what adding clones of those of `added` whose ids are new makes of
/// `slots`.
pub open spec fn slots_added<T: Command>(
    slots: Seq<CommandSlot<T>>,
    added: Seq<CommandSlot<T>>,
    result: Seq<CommandSlot<T>>,
) -> bool
    decreases added.len(),
{
    if added.len() == 0 {
        result == slots
    } else {
        exists|before: Seq<CommandSlot<T>>|
            {
                &&& slots_added(slots, added.drop_last(), before)
                &&& #[trigger] slot_added(before, added.last(), result)
            }
    }
}

/// Whether `result` is what adding a clone of `slot`, if its id is new, makes of `slots`.
pub open spec fn slot_added<T: Command>(
    slots: Seq<CommandSlot<T>>,
    slot: CommandSlot<T>,
    result: Seq<CommandSlot<T>>,
) -> bool {
    if has_id(slots, slot.id) {
        result == slots
    } else {
        exists|copy: CommandSlot<T>| #[trigger] slot_cloned(slot, copy) && result == slots.push(copy)
    }
}

/// The slots whose ids are not among `removed`.
pub open spec fn slots_kept<T: Command>(
    slots: Seq<CommandSlot<T>>,
    removed: Seq<CommandId>,
) -> Seq<CommandSlot<T>> {
    slots.filter(|slot: CommandSlot<T>| !removed.contains(slot.id))
}

/// Whether `result` is what a change of commands makes of `last`.
pub open spec fn slots_changed<T: Command>(
    last: Seq<CommandSlot<T>>,
    added: Seq<CommandSlot<T>>,
    removed: Seq<CommandId>,
    result: Seq<CommandSlot<T>>,
) -> bool {
    exists|copies: Seq<CommandSlot<T>>, more: Seq<CommandSlot<T>>|
        {
            &&& #[trigger] slots_cloned(last, copies)
            &&& #[trigger] slots_added(copies, added, more)
            &&& result == slots_kept(more, removed)
        }
}

fn add_slots<T: Command>(slots: &mut Vec<CommandSlot<T>>, added: &Vec<CommandSlot<T>>)
    ensures
        slots_added(old(slots)@, added@, final(slots)@),
{
    let ghost start = slots@;
    let mut index: usize = 0;
    assert(added@.take(0) =~= Seq::empty());
    while index < added.len()
        invariant
            index <= added@.len(),
            slots_added(start, added@.take(index as int), slots@),
        decreases added@.len() - index,
    {
        let ghost before = slots@;
        let ghost more = added@.take(index + 1);
        assert(more.drop_last() =~= added@.take(index as int));
        if !contains_id(slots, added[index].id) {
            let copy = added[index].clone();
            assert(slot_cloned(added@[index as int], copy));
            slots.push(copy);
        }
        assert(slot_added(before, more.last(), slots@));
        assert(slots_added(start, more, slots@));
        index = index + 1;
    }
    assert(added@.take(index as int) =~= added@);
}

fn remove_slots<T: Command>(slots: &mut Vec<CommandSlot<T>>, removed: &Vec<CommandId>)
    ensures
        final(slots)@ == slots_kept(old(slots)@, removed@),
{
    let ghost start = slots@;
    let ghost wanted = |slot: CommandSlot<T>| !removed@.contains(slot.id);
    let ghost mut seen: int = 0;
    let mut index: usize = 0;
    proof {
        assert(start.take(0) =~= Seq::empty());
        reveal(Seq::filter);
        assert(slots@ =~= start.take(0).filter(wanted) + start.skip(0));
    }
    while index < slots.len()
        invariant
            wanted == (|slot: CommandSlot<T>| !removed@.contains(slot.id)),
            0 <= seen <= start.len(),
            index == start.take(seen).filter(wanted).len(),
            slots@ == start.take(seen).filter(wanted) + start.skip(seen),
        decreases start.len() - seen,
    {
        proof {
            assert(start.take(seen + 1).drop_last() =~= start.take(seen));
            reveal(Seq::filter);
            assert(slots@[index as int] == start[seen]);
        }
        let ghost before = start.take(seen).filter(wanted);
        if lists_id(removed, slots[index].id) {
            let _ = slots.remove(index);
            assert(slots@ =~= before + start.skip(seen + 1));
        } else {
            index = index + 1;
            assert(slots@ =~= before.push(start[seen]) + start.skip(seen + 1));
        }
        proof {
            seen = seen + 1;
        }
    }
    proof {
        assert(start.skip(seen).len() == 0);
        assert(start.take(seen) =~= start);
        assert(slots@ =~= start.filter(wanted));
    }
}

fn clone_slots<T: Command>(slots: &Vec<CommandSlot<T>>) -> (result: Vec<CommandSlot<T>>)
    ensures
        slots_cloned(slots@, result@),
{
    let mut result: Vec<CommandSlot<T>> = Vec::new();
    let mut index: usize = 0;
    while index < slots.len()
        invariant
            index <= slots@.len(),
            result@.len() == index,
            forall|i: int| 0 <= i < index ==> slot_cloned(slots@[i], #[trigger] result@[i]),
        decreases slots@.len() - index,
    {
        result.push(slots[index].clone());
        index = index + 1;
    }
    result
}

impl<T: Command> HistoryView<CommandFrame<T>> {
    /// Whether applying one snapshot at `timestamp` can give `after`, or fail with `error`
    /// and change nothing.
    pub open spec fn apply_step(
        self,
        timestamp: TimeStamp,
        snapshot: CommandSnapshot<T>,
        after: Self,
        error: Option<Error>,
    ) -> bool {
        match snapshot {
            CommandSnapshot::Full(frame) => {
                &&& error is None
                &&& exists|copy: CommandFrame<T>|
                    cloned::<CommandFrame<T>>(frame, copy) && #[trigger] self.set_to(
                        timestamp,
                        copy,
                        after,
                    )
            },
            CommandSnapshot::SameAsLast => match self.at(previous_tick(timestamp)) {
                None => after == self && error == Some(
                    Error::NoFrame(previous_tick(timestamp).0),
                ),
                Some(last) => self.carried_on(last, timestamp, after, error),
            },
            CommandSnapshot::DifferentFromLast { id_generator, added, removed } => match self.at(
                previous_tick(timestamp),
            ) {
                None => after == self && error == Some(
                    Error::NoFrame(previous_tick(timestamp).0),
                ),
                Some(last) => error is None && self.changed_on(
                    last,
                    id_generator,
                    added@,
                    removed@,
                    timestamp,
                    after,
                ),
            },
        }
    }

    /// Whether putting the commands of frame `from` with a change to them at tick `to` can
    /// give `after`.
    pub open spec fn changed_on(
        self,
        from: CommandFrame<T>,
        id_generator: CommandId,
        added: Seq<CommandSlot<T>>,
        removed: Seq<CommandId>,
        to: TimeStamp,
        after: Self,
    ) -> bool {
        exists|commands: Seq<CommandSlot<T>>|
            {
                &&& #[trigger] slots_changed(from.commands@, added, removed, commands)
                &&& self.frame_set(to, id_generator, commands, after)
            }
    }

    /// Whether there is room at `timestamp`, where the snapshot gets to be put there.
    pub open spec fn accepts_snapshot(self, timestamp: TimeStamp, snapshot: CommandSnapshot<T>) -> bool {
        snapshot is Full || self.at(previous_tick(timestamp)) is Some ==> self.accepts(timestamp)
    }

    /// Whether applying snapshots from `from` on can give `after`, or end early with `error`.
    pub open spec fn apply_steps(
        self,
        from: TimeStamp,
        snapshots: Seq<CommandSnapshot<T>>,
        after: Self,
        error: Option<Error>,
    ) -> bool
        decreases snapshots.len(),
    {
        if snapshots.len() == 0 {
            after == self && error is None
        } else {
            exists|between: Self, earlier: Option<Error>|
                {
                    &&& self.apply_steps(from, snapshots.drop_last(), between, earlier)
                    &&& #[trigger] between.apply_step_behind(
                        TimeStamp(saturating_sum(from.0, (snapshots.len() - 1) as u64)),
                        snapshots.last(),
                        earlier,
                        after,
                        error,
                    )
                }
        }
    }

    /// One more snapshot behind others that may have ended early.
    pub open spec fn apply_step_behind(
        self,
        timestamp: TimeStamp,
        snapshot: CommandSnapshot<T>,
        earlier: Option<Error>,
        after: Self,
        error: Option<Error>,
    ) -> bool {
        match earlier {
            Some(reason) => after == self && error == Some(reason),
            None => self.apply_step(timestamp, snapshot, after, error),
        }
    }

    proof fn lemma_apply_failed(
        self,
        from: TimeStamp,
        snapshots: Seq<CommandSnapshot<T>>,
        index: int,
        after: Self,
        error: Error,
    )
        requires
            0 <= index <= snapshots.len(),
            self.apply_steps(from, snapshots.take(index), after, Some(error)),
        ensures
            self.apply_steps(from, snapshots, after, Some(error)),
        decreases snapshots.len() - index,
    {
        if index < snapshots.len() {
            let more = snapshots.take(index + 1);
            assert(more.drop_last() =~= snapshots.take(index));
            assert(after.apply_step_behind(
                TimeStamp(saturating_sum(from.0, (more.len() - 1) as u64)),
                more.last(),
                Some(error),
                after,
                Some(error),
            ));
            assert(self.apply_steps(from, more, after, Some(error)));
            self.lemma_apply_failed(from, snapshots, index + 1, after, error);
        } else {
            assert(snapshots.take(index) =~= snapshots);
        }
    }

    /// Whether applying `event` can give `after`, or end early with `error`.
    pub open spec fn applied_event(
        self,
        event: CommandHistoryEvent<T>,
        after: Self,
        error: Option<Error>,
    ) -> bool {
        exists|trimmed: Self|
            {
                &&& #[trigger] self.trimmed_to(
                    TickRange {
                        start: TickBound::Unbounded,
                        end: TickBound::Included(event.last()),
                    },
                    trimmed,
                )
                &&& trimmed.apply_steps(event.first(), event.list(), after, error)
            }
    }

    /// Whether there is room for all snapshots of `event`.
    pub open spec fn accepts_event(self, event: CommandHistoryEvent<T>) -> bool {
        forall|trimmed: Self, count: int, between: Self|
            {
                &&& 0 <= count < event.list().len()
                &&& #[trigger] self.trimmed_to(
                    TickRange {
                        start: TickBound::Unbounded,
                        end: TickBound::Included(event.last()),
                    },
                    trimmed,
                )
                &&& #[trigger] trimmed.apply_steps(
                    event.first(),
                    event.list().take(count),
                    between,
                    None,
                )
            } ==> between.accepts_snapshot(
                TimeStamp(saturating_sum(event.first().0, count as u64)),
                event.list()[count],
            )
    }

    /// Applying snapshots does not change the capacity.
    pub proof fn lemma_apply_keeps_capacity(
        self,
        from: TimeStamp,
        snapshots: Seq<CommandSnapshot<T>>,
        after: Self,
        error: Option<Error>,
    )
        requires
            self.apply_steps(from, snapshots, after, error),
        ensures
            after.capacity == self.capacity,
        decreases snapshots.len(),
    {
        if snapshots.len() > 0 {
            let (between, earlier) = choose|between: Self, earlier: Option<Error>|
                {
                    &&& self.apply_steps(from, snapshots.drop_last(), between, earlier)
                    &&& #[trigger] between.apply_step_behind(
                        TimeStamp(saturating_sum(from.0, (snapshots.len() - 1) as u64)),
                        snapshots.last(),
                        earlier,
                        after,
                        error,
                    )
                };
            self.lemma_apply_keeps_capacity(from, snapshots.drop_last(), between, earlier);
        }
    }

    /// A history with any capacity has room for all snapshots.
    pub proof fn lemma_accepts_event(self, event: CommandHistoryEvent<T>)
        requires
            self.capacity > 0 || event.list().len() == 0,
        ensures
            self.accepts_event(event),
    {
        let range = TickRange {
            start: TickBound::Unbounded,
            end: TickBound::Included(event.last()),
        };
        assert forall|trimmed: Self, count: int, between: Self|
            {
                &&& 0 <= count < event.list().len()
                &&& #[trigger] self.trimmed_to(range, trimmed)
                &&& #[trigger] trimmed.apply_steps(
                    event.first(),
                    event.list().take(count),
                    between,
                    None,
                )
            } implies between.accepts_snapshot(
            TimeStamp(saturating_sum(event.first().0, count as u64)),
            event.list()[count],
        ) by {
            trimmed.lemma_apply_keeps_capacity(
                event.first(),
                event.list().take(count),
                between,
                None,
            );
        }
    }
}

impl<T: Command> CommandHistoryBuffer<T> {
    /// Clones the frames of `range`, if there are any.
    pub fn collect_history(&self, range: TickRange) -> (result: Option<CommandHistoryEvent<T>>)
        ensures
            result is None <==> self@.entries(range).len() == 0,
            result matches Some(event) ==> {
                &&& event.first() == self@.entries(range)[0].0
                &&& event.list().len() == self@.entries(range).len()
                &&& forall|i: int|
                    0 <= i < event.list().len() ==> is_full_copy(
                        self@.entries(range)[i].1,
                        #[trigger] event.list()[i],
                    )
            },
    {
        let entries = self.iter(range);
        if entries.len() == 0 {
            return None;
        }
        let (start, _): (TimeStamp, &CommandFrame<T>) = entries[0];
        let mut snapshots: Vec<CommandSnapshot<T>> = Vec::new();
        let mut index: usize = 0;
        while index < entries.len()
            invariant
                index <= entries@.len() == self@.entries(range).len(),
                forall|i: int|
                    0 <= i < entries@.len() ==> {
                        &&& (#[trigger] entries@[i]).0 == self@.entries(range)[i].0
                        &&& *entries@[i].1 == self@.entries(range)[i].1
                    },
                snapshots@.len() == index,
                forall|i: int|
                    0 <= i < index ==> is_full_copy(
                        self@.entries(range)[i].1,
                        #[trigger] snapshots@[i],
                    ),
            decreases entries@.len() - index,
        {
            let (_, frame): (TimeStamp, &CommandFrame<T>) = entries[index];
            snapshots.push(CommandSnapshot::Full(frame.clone()));
            index = index + 1;
        }
        Some(CommandHistoryEvent { start, snapshots })
    }

    /// Clones the first frame of `range`, if there is one, and tells of the others what
    /// changes from one to the next.
    pub fn collect_history_delta(&self, range: TickRange) -> (result: Option<
        CommandHistoryEvent<T>,
    >)
        ensures
            result is None <==> self@.entries(range).len() == 0,
            result matches Some(event) ==> {
                &&& event.first() == self@.entries(range)[0].0
                &&& event.list().len() == self@.entries(range).len()
                &&& is_full_copy(self@.entries(range)[0].1, event.list()[0])
                &&& forall|i: int|
                    1 <= i < event.list().len() ==> is_delta(
                        self@.entries(range)[i - 1].1,
                        self@.entries(range)[i].1,
                        #[trigger] event.list()[i],
                    )
            },
    {
        let entries = self.iter(range);
        if entries.len() == 0 {
            return None;
        }
        let (start, first): (TimeStamp, &CommandFrame<T>) = entries[0];
        let mut snapshots: Vec<CommandSnapshot<T>> = Vec::new();
        snapshots.push(CommandSnapshot::Full(first.clone()));
        let mut index: usize = 1;
        while index < entries.len()
            invariant
                1 <= index <= entries@.len() == self@.entries(range).len(),
                forall|i: int|
                    0 <= i < entries@.len() ==> {
                        &&& (#[trigger] entries@[i]).0 == self@.entries(range)[i].0
                        &&& *entries@[i].1 == self@.entries(range)[i].1
                    },
                snapshots@.len() == index,
                is_full_copy(self@.entries(range)[0].1, snapshots@[0]),
                forall|i: int|
                    1 <= i < index ==> is_delta(
                        self@.entries(range)[i - 1].1,
                        self@.entries(range)[i].1,
                        #[trigger] snapshots@[i],
                    ),
            decreases entries@.len() - index,
        {
            let (_, last): (TimeStamp, &CommandFrame<T>) = entries[index - 1];
            let (_, frame): (TimeStamp, &CommandFrame<T>) = entries[index];
            let snapshot = if have_same_ids(last, frame) {
                CommandSnapshot::SameAsLast
            } else {
                CommandSnapshot::DifferentFromLast {
                    id_generator: frame.id_generator,
                    added: clone_slots_without(&frame.commands, &last.commands),
                    removed: ids_without(&last.commands, &frame.commands),
                }
            };
            assert(is_delta(*last, *frame, snapshot));
            snapshots.push(snapshot);
            index = index + 1;
        }
        Some(CommandHistoryEvent { start, snapshots })
    }

    /// Clones the frame at `timestamp`, if there is one.
    pub fn collect_snapshot(&self, timestamp: TimeStamp) -> (result: Option<CommandHistoryEvent<T>>)
        ensures
            result is None <==> self@.at(timestamp) is None,
            result matches Some(event) ==> {
                &&& event.first() == timestamp
                &&& event.list().len() == 1
                &&& is_full_copy(self@.at(timestamp)->0, event.list()[0])
            },
    {
        match self.history.get(timestamp) {
            Some(frame) => Some(CommandHistoryEvent::single(timestamp, frame.clone())),
            None => None,
        }
    }

    /// Drops what lies behind `event` and applies its snapshots, up to the first failure.
    pub fn apply_history(&mut self, event: &CommandHistoryEvent<T>) -> (result: Result<(), Error>)
        requires
            old(self)@.consistent(),
            old(self)@.accepts_event(*event),
        ensures
            old(self)@.applied_event(*event, final(self)@, failure(result)),
    {
        let ghost before = self@;
        let range = TickRange::until(event.now());
        self.history.set_range(range);
        let ghost trimmed = self@;
        assert(before.trimmed_to(range, trimmed));
        let mut index: usize = 0;
        assert(event.list().take(0) =~= Seq::empty());
        while index < event.snapshots.len()
            invariant
                before == old(self)@,
                index <= event.snapshots@.len(),
                range == (TickRange {
                    start: TickBound::Unbounded,
                    end: TickBound::Included(event.last()),
                }),
                before.trimmed_to(range, trimmed),
                before.accepts_event(*event),
                trimmed.apply_steps(event.first(), event.list().take(index as int), self@, None),
            decreases event.snapshots@.len() - index,
        {
            let ghost between = self@;
            let ghost done_before = event.list().take(index as int);
            let ghost more = event.list().take(index + 1);
            let timestamp = event.start + index as u64;
            assert(more.drop_last() =~= done_before);
            assert(between.accepts_snapshot(timestamp, event.list()[index as int]));
            assert(timestamp == TimeStamp(
                saturating_sum(event.first().0, (more.len() - 1) as u64),
            ));
            let result = self.apply_snapshot(timestamp, &event.snapshots[index]);
            assert(between.apply_step_behind(
                timestamp,
                more.last(),
                None,
                self@,
                failure(result),
            ));
            assert(trimmed.apply_steps(event.first(), more, self@, failure(result)));
            match result {
                Ok(_) => {},
                Err(error) => {
                    proof {
                        trimmed.lemma_apply_failed(
                            event.first(),
                            event.list(),
                            index + 1,
                            self@,
                            error,
                        );
                    }
                    return Err(error);
                },
            }
            index = index + 1;
        }
        assert(event.list().take(index as int) =~= event.list());
        Ok(())
    }

    fn apply_snapshot(&mut self, timestamp: TimeStamp, snapshot: &CommandSnapshot<T>) -> (result:
        Result<(), Error>)
        requires
            old(self)@.accepts_snapshot(timestamp, *snapshot),
        ensures
            old(self)@.apply_step(timestamp, *snapshot, final(self)@, failure(result)),
    {
        let ghost before = self@;
        match snapshot {
            CommandSnapshot::Full(frame) => {
                let copy = frame.clone();
                assert(cloned::<CommandFrame<T>>(*frame, copy));
                self.history.set(timestamp, copy);
                assert(before.set_to(timestamp, copy, self@));
                Ok(())
            },
            CommandSnapshot::SameAsLast => match self.history.get(timestamp - 1) {
                Some(last) => {
                    let ghost current = *last;
                    let left = tick_commands(&last.commands);
                    let id_generator = last.id_generator;
                    assert(ticked(current.commands@, list_of(left)));
                    match left {
                        Ok(commands) => {
                            let next = CommandFrame { id_generator, commands };
                            self.history.set(timestamp, next);
                            assert(before.set_to(timestamp, next, self@));
                            assert(before.frame_set(timestamp, id_generator, commands@, self@));
                            assert(before.carried_on(current, timestamp, self@, None));
                            Ok(())
                        },
                        Err(error) => {
                            assert(before.carried_on(current, timestamp, self@, Some(error)));
                            Err(error)
                        },
                    }
                },
                None => Err(Error::NoFrame((timestamp - 1).0)),
            },
            CommandSnapshot::DifferentFromLast { id_generator, added, removed } => {
                match self.history.get(timestamp - 1) {
                    Some(last) => {
                        let ghost current = *last;
                        let mut commands = clone_slots(&last.commands);
                        let ghost copies = commands@;
                        add_slots(&mut commands, added);
                        let ghost more = commands@;
                        remove_slots(&mut commands, removed);
                        proof {
                            assert(slots_cloned(current.commands@, copies));
                            assert(slots_added(copies, added@, more));
                            assert(slots_changed(
                                current.commands@,
                                added@,
                                removed@,
                                commands@,
                            ));
                        }
                        let frame = CommandFrame { id_generator: *id_generator, commands };
                        self.history.set(timestamp, frame);
                        assert(before.set_to(timestamp, frame, self@));
                        assert(before.frame_set(timestamp, *id_generator, frame.commands@, self@));
                        assert(slots_changed(
                            current.commands@,
                            added@,
                            removed@,
                            frame.commands@,
                        ));
                        assert(before.changed_on(
                            current,
                            *id_generator,
                            added@,
                            removed@,
                            timestamp,
                            self@,
                        ));
                        Ok(())
                    },
                    None => Err(Error::NoFrame((timestamp - 1).0)),
                }
            },
        }
    }

    /// Applies `event` to a history of its own, clones that into this one and tells the first
    /// tick at which they differed.
    pub fn apply_history_divergence(&mut self, event: &CommandHistoryEvent<T>) -> (result: Result<
        Option<TimeStamp>,
        Error,
    >) where T: PartialEq
        requires
            forall|fresh: HistoryView<CommandFrame<T>>, temporary: HistoryView<CommandFrame<T>>|
                {
                    &&& #[trigger] fresh.is_fresh(event.list().len() as usize)
                    &&& #[trigger] fresh.applied_event(*event, temporary, None)
                } ==> old(self)@.accepts_all(temporary.all_entries()),
        ensures
            exists|
                fresh: HistoryView<CommandFrame<T>>,
                temporary: HistoryView<CommandFrame<T>>,
                error: Option<Error>,
            |
                {
                    &&& #[trigger] fresh.is_fresh(event.list().len() as usize)
                    &&& #[trigger] fresh.applied_event(*event, temporary, error)
                    &&& match error {
                        Some(reason) => result == Err::<Option<TimeStamp>, Error>(reason)
                            && final(self)@ == old(self)@,
                        None => {
                            &&& result is Ok
                            &&& old(self)@.diverges_from(temporary, result->Ok_0)
                            &&& old(self)@.set_all(temporary.all_entries(), final(self)@)
                        },
                    }
                },
    {
        let mut temporary: CommandHistoryBuffer<T> = CommandHistoryBuffer::with_capacity(
            event.snapshots.len(),
        );
        let ghost fresh = temporary@;
        assert(event.snapshots.len() == event.list().len() as usize);
        assert(fresh.is_fresh(event.list().len() as usize));
        proof {
            fresh.lemma_accepts_event(*event);
        }
        match temporary.apply_history(event) {
            Ok(_) => {
                assert(fresh.applied_event(*event, temporary@, None));
                let divergence = self.divergence(&temporary);
                proof {
                    temporary@.lemma_full_entries();
                }
                temporary.clone_to(self, TickRange::full());
                Ok(divergence)
            },
            Err(error) => {
                assert(fresh.applied_event(*event, temporary@, Some(error)));
                Err(error)
            },
        }
    }
}

/// Whether `copy` is a clone of `frame`, or a clone of a clone.
pub open spec fn restored<T: Command>(frame: CommandFrame<T>, copy: CommandFrame<T>) -> bool {
    exists|between: CommandFrame<T>| #[trigger]
        cloned::<CommandFrame<T>>(frame, between) && copy_of(between, copy)
}

proof fn lemma_whole_frames_put<T: Command>(
    start: HistoryView<CommandFrame<T>>,
    from: TimeStamp,
    snapshots: Seq<CommandSnapshot<T>>,
    after: HistoryView<CommandFrame<T>>,
    place: int,
)
    requires
        start.consistent(),
        0 <= place < snapshots.len() <= start.capacity,
        from.0 + snapshots.len() - 1 <= u64::MAX,
        forall|i: int| 0 <= i < snapshots.len() ==> (#[trigger] snapshots[i]) is Full,
        start.apply_steps(from, snapshots, after, None),
    ensures
        after.consistent(),
        after.capacity == start.capacity,
        after.at(TimeStamp((from.0 + place) as u64)) matches Some(frame) && restored(
            snapshots[place]->Full_0,
            frame,
        ),
    decreases snapshots.len(),
{
    let rest = snapshots.drop_last();
    let (between, earlier) = choose|
        between: HistoryView<CommandFrame<T>>,
        earlier: Option<Error>,
    |
        {
            &&& start.apply_steps(from, rest, between, earlier)
            &&& #[trigger] between.apply_step_behind(
                TimeStamp(saturating_sum(from.0, (snapshots.len() - 1) as u64)),
                snapshots.last(),
                earlier,
                after,
                None,
            )
        };
    let tick = TimeStamp((from.0 + snapshots.len() - 1) as u64);
    assert(snapshots[snapshots.len() - 1] is Full);
    let full = snapshots.last()->Full_0;
    let copy = choose|copy: CommandFrame<T>|
        cloned::<CommandFrame<T>>(full, copy) && #[trigger] between.set_to(tick, copy, after);
    start.lemma_apply_keeps_capacity(from, rest, between, None);
    if rest.len() == 0 {
        between.law_set_then_get(tick, copy, after);
    } else {
        assert forall|i: int| 0 <= i < rest.len() implies (#[trigger] rest[i]) is Full by {
            assert(rest[i] == snapshots[i]);
        }
        lemma_whole_frames_put(start, from, rest, between, rest.len() - 1);
        lemma_whole_frames_put(start, from, rest, between, 0);
        between.law_set_then_get(tick, copy, after);
        if place < rest.len() {
            lemma_whole_frames_put(start, from, rest, between, place);
            let other = TimeStamp((from.0 + place) as u64);
            assert(after.at(other) is Some);
            between.law_set_keeps_the_rest(tick, copy, after, other);
        }
    }
}

/// Whole frames of one history that are applied to another with room for them are there again,
/// each as a clone, at the same ticks.
pub proof fn law_whole_frames_are_restored<T: Command>(
    source: HistoryView<CommandFrame<T>>,
    range: TickRange,
    event: CommandHistoryEvent<T>,
    target: HistoryView<CommandFrame<T>>,
    after: HistoryView<CommandFrame<T>>,
    place: int,
)
    requires
        source.consistent(),
        0 <= place < source.entries(range).len(),
        event.first() == source.entries(range)[0].0,
        event.list().len() == source.entries(range).len(),
        forall|i: int|
            0 <= i < event.list().len() ==> is_full_copy(
                source.entries(range)[i].1,
                #[trigger] event.list()[i],
            ),
        event.list().len() <= target.capacity,
        target.applied_event(event, after, None),
    ensures
        after.at(source.entries(range)[place].0) matches Some(frame) && exists|
            written: CommandFrame<T>,
        | #[trigger]
            cloned::<CommandFrame<T>>(source.entries(range)[place].1, written) && restored(
                written,
                frame,
            ),
{
    let trimmed = choose|trimmed: HistoryView<CommandFrame<T>>|
        {
            &&& #[trigger] target.trimmed_to(
                TickRange {
                    start: TickBound::Unbounded,
                    end: TickBound::Included(event.last()),
                },
                trimmed,
            )
            &&& trimmed.apply_steps(event.first(), event.list(), after, None)
        };
    assert forall|i: int| 0 <= i < event.list().len() implies (#[trigger] event.list()[i]) is Full by {
        assert(is_full_copy(source.entries(range)[i].1, event.list()[i]));
    }
    source.law_entries_follow(range, place);
    source.law_entries_follow(range, event.list().len() - 1);
    lemma_whole_frames_put(trimmed, event.first(), event.list(), after, place);
    assert(is_full_copy(source.entries(range)[place].1, event.list()[place]));
}

/// What changes from one frame to the next, applied to clones of the one, gives commands with
/// exactly the ids of the other.
pub proof fn law_delta_restores_ids<T: Command>(
    last: CommandFrame<T>,
    frame: CommandFrame<T>,
    added: Vec<CommandSlot<T>>,
    removed: Vec<CommandId>,
    result: Seq<CommandSlot<T>>,
    id: CommandId,
)
    requires
        is_delta(
            last,
            frame,
            CommandSnapshot::DifferentFromLast { id_generator: frame.id_generator, added, removed },
        ),
        slots_changed(last.commands@, added@, removed@, result),
    ensures
        has_id(result, id) <==> has_id(frame.commands@, id),
{
    let (copies, more) = choose|copies: Seq<CommandSlot<T>>, more: Seq<CommandSlot<T>>|
        {
            &&& #[trigger] slots_cloned(last.commands@, copies)
            &&& #[trigger] slots_added(copies, added@, more)
            &&& result == slots_kept(more, removed@)
        };
    let new = slots_without(frame.commands@, last.commands@);
    let gone = slots_without(last.commands@, frame.commands@);
    lemma_cloned_ids(last.commands@, copies, id);
    lemma_cloned_ids(new, added@, id);
    lemma_added_ids(copies, added@, more, id);
    lemma_filtered_ids(frame.commands@, |slot: CommandSlot<T>| !has_id(last.commands@, slot.id), id);
    lemma_filtered_ids(last.commands@, |slot: CommandSlot<T>| !has_id(frame.commands@, slot.id), id);
    lemma_filtered_ids(more, |slot: CommandSlot<T>| !removed@.contains(slot.id), id);
    lemma_ids_listed(gone, id);
}

proof fn lemma_cloned_ids<T: Command>(
    slots: Seq<CommandSlot<T>>,
    copies: Seq<CommandSlot<T>>,
    id: CommandId,
)
    requires
        slots_cloned(slots, copies),
    ensures
        has_id(copies, id) <==> has_id(slots, id),
{
    if has_id(slots, id) {
        let i = choose|i: int| 0 <= i < slots.len() && (#[trigger] slots[i]).id == id;
        assert(copies[i].id == id);
    }
    if has_id(copies, id) {
        let i = choose|i: int| 0 <= i < copies.len() && (#[trigger] copies[i]).id == id;
        assert(slots[i].id == id);
    }
}

proof fn lemma_added_ids<T: Command>(
    slots: Seq<CommandSlot<T>>,
    added: Seq<CommandSlot<T>>,
    result: Seq<CommandSlot<T>>,
    id: CommandId,
)
    requires
        slots_added(slots, added, result),
    ensures
        has_id(result, id) <==> has_id(slots, id) || has_id(added, id),
    decreases added.len(),
{
    if added.len() > 0 {
        let before = choose|before: Seq<CommandSlot<T>>|
            {
                &&& slots_added(slots, added.drop_last(), before)
                &&& #[trigger] slot_added(before, added.last(), result)
            };
        lemma_added_ids(slots, added.drop_last(), before, id);
        assert(has_id(added, id) <==> has_id(added.drop_last(), id) || added.last().id == id) by {
            if has_id(added.drop_last(), id) {
                let i = choose|i: int|
                    0 <= i < added.drop_last().len() && (#[trigger] added.drop_last()[i]).id == id;
                assert(added[i].id == id);
            }
            if added.last().id == id {
                assert(added[added.len() - 1].id == id);
            }
            if has_id(added, id) {
                let i = choose|i: int| 0 <= i < added.len() && (#[trigger] added[i]).id == id;
                if i < added.len() - 1 {
                    assert(added.drop_last()[i].id == id);
                }
            }
        }
        if !has_id(before, added.last().id) {
            let copy = choose|copy: CommandSlot<T>| #[trigger]
                slot_cloned(added.last(), copy) && result == before.push(copy);
            assert(has_id(result, id) <==> has_id(before, id) || copy.id == id) by {
                if has_id(before, id) {
                    let i = choose|i: int| 0 <= i < before.len() && (#[trigger] before[i]).id == id;
                    assert(result[i].id == id);
                }
                if copy.id == id {
                    assert(result[before.len() as int].id == id);
                }
                if has_id(result, id) {
                    let i = choose|i: int| 0 <= i < result.len() && (#[trigger] result[i]).id == id;
                    if i < before.len() {
                        assert(before[i].id == id);
                    }
                }
            }
        }
    }
}

proof fn lemma_filtered_ids<T: Command>(
    slots: Seq<CommandSlot<T>>,
    wanted: spec_fn(CommandSlot<T>) -> bool,
    id: CommandId,
)
    requires
        forall|a: CommandSlot<T>, b: CommandSlot<T>| a.id == b.id ==> wanted(a) == wanted(b),
    ensures
        has_id(slots.filter(wanted), id) <==> exists|i: int|
            0 <= i < slots.len() && (#[trigger] slots[i]).id == id && wanted(slots[i]),
{
    let kept = slots.filter(wanted);
    if has_id(kept, id) {
        let i = choose|i: int| 0 <= i < kept.len() && (#[trigger] kept[i]).id == id;
        lemma_filtered_from(slots, wanted, i);
        let j = choose|j: int| 0 <= j < slots.len() && slots[j] == kept[i];
        slots.lemma_filter_pred(wanted, i);
        assert(slots[j].id == id && wanted(slots[j]));
    }
    if exists|i: int| 0 <= i < slots.len() && (#[trigger] slots[i]).id == id && wanted(slots[i]) {
        let i = choose|i: int|
            0 <= i < slots.len() && (#[trigger] slots[i]).id == id && wanted(slots[i]);
        slots.lemma_filter_contains(wanted, i);
        let j = choose|j: int| 0 <= j < kept.len() && kept[j] == slots[i];
        assert(kept[j].id == id);
    }
}

proof fn lemma_filtered_from<A>(all: Seq<A>, wanted: spec_fn(A) -> bool, place: int)
    requires
        0 <= place < all.filter(wanted).len(),
    ensures
        all.contains(all.filter(wanted)[place]),
    decreases all.len(),
{
    reveal(Seq::filter);
    let rest = all.drop_last();
    let kept = all.filter(wanted);
    if place < rest.filter(wanted).len() {
        lemma_filtered_from(rest, wanted, place);
        let i = choose|i: int| 0 <= i < rest.len() && rest[i] == rest.filter(wanted)[place];
        assert(all[i] == kept[place]);
    } else {
        assert(all[all.len() - 1] == kept[place]);
    }
}

proof fn lemma_ids_listed<T: Command>(slots: Seq<CommandSlot<T>>, id: CommandId)
    ensures
        ids_of(slots).contains(id) <==> has_id(slots, id),
{
    let ids = ids_of(slots);
    if ids.contains(id) {
        let i = choose|i: int| 0 <= i < ids.len() && ids[i] == id;
        assert(slots[i].id == id);
    }
    if has_id(slots, id) {
        let i = choose|i: int| 0 <= i < slots.len() && (#[trigger] slots[i]).id == id;
        assert(ids[i] == id);
    }
}

/// Whether undoing a command that was done always restores the context.
pub open spec fn takes_back<T: Command>() -> bool {
    forall|
        command: T,
        context: T::Context,
        after: T,
        context_after: T::Context,
        back: T,
        context_back: T::Context,
    | #[trigger]
        command.does(context, after, context_after) && #[trigger] after.undoes(
            context_after,
            back,
            context_back,
        ) ==> context_back == context
}

/// Undoing begins with the first.
proof fn lemma_undone_from_front<T: Command>(
    slots: Seq<CommandSlot<T>>,
    context: T::Context,
    after: Seq<CommandSlot<T>>,
    context_after: T::Context,
) -> (between: T::Context)
    requires
        slots.len() > 0,
        undone(slots, context, after, context_after),
    ensures
        after.len() == slots.len(),
        slots[0].data.undoes(context, after[0].data, between),
        undone(slots.skip(1), between, after.skip(1), context_after),
    decreases slots.len(),
{
    let before = choose|before: T::Context|
        {
            &&& undone(slots.drop_last(), context, after.drop_last(), before)
            &&& #[trigger] slots.last().data.undoes(before, after.last().data, context_after)
        };
    if slots.len() == 1 {
        assert(slots.skip(1) =~= Seq::empty());
        assert(before == context);
        context_after
    } else {
        let between = lemma_undone_from_front(
            slots.drop_last(),
            context,
            after.drop_last(),
            before,
        );
        assert(slots.skip(1).drop_last() =~= slots.drop_last().skip(1));
        assert(after.skip(1).drop_last() =~= after.drop_last().skip(1));
        assert(undone(slots.skip(1).drop_last(), between, after.skip(1).drop_last(), before));
        assert(slots.skip(1).last().data.undoes(before, after.skip(1).last().data, context_after));
        between
    }
}

/// If each command takes back what it did, then undoing the commands of a frame, last first,
/// takes back what doing them in order did.
pub proof fn law_undo_takes_back_do<T: Command>(
    slots: Seq<CommandSlot<T>>,
    context: T::Context,
    after: Seq<CommandSlot<T>>,
    context_after: T::Context,
    back: Seq<CommandSlot<T>>,
    context_back: T::Context,
)
    requires
        takes_back::<T>(),
        done(slots, context, after, context_after),
        undone(after.reverse(), context_after, back.reverse(), context_back),
    ensures
        context_back == context,
    decreases slots.len(),
{
    if slots.len() > 0 {
        let before = choose|before: T::Context|
            {
                &&& done(slots.drop_last(), context, after.drop_last(), before)
                &&& #[trigger] slots.last().data.does(before, after.last().data, context_after)
            };
        let between = lemma_undone_from_front(
            after.reverse(),
            context_after,
            back.reverse(),
            context_back,
        );
        assert(after.reverse()[0] == after.last());
        assert(back.reverse()[0] == back.last());
        assert(between == before);
        assert(after.reverse().skip(1) =~= after.drop_last().reverse());
        assert(back.reverse().skip(1) =~= back.drop_last().reverse());
        law_undo_takes_back_do(
            slots.drop_last(),
            context,
            after.drop_last(),
            before,
            back.drop_last(),
            context_back,
        );
    }
}

/// Whether two histories hold the same frames over some ticks.
spec fn alike<T: Command>(
    a: HistoryView<CommandFrame<T>>,
    b: HistoryView<CommandFrame<T>>,
    from: u64,
    count: nat,
) -> bool {
    forall|tick: u64|
        from <= tick < from + count ==> #[trigger] a.at(TimeStamp(tick)) == b.at(TimeStamp(tick))
}

/// Doing frames keeps the window.
proof fn lemma_doing_keeps_window<T: Command>(
    start: HistoryView<CommandFrame<T>>,
    context: T::Context,
    from: u64,
    count: nat,
    after: HistoryView<CommandFrame<T>>,
    context_after: T::Context,
)
    requires
        start.do_steps(context, from, count, after, context_after),
    ensures
        after.now == start.now,
        after.items.len() == start.items.len(),
    decreases count,
{
    if count > 0 {
        let (between, context_between) = choose|
            between: HistoryView<CommandFrame<T>>,
            context_between: T::Context,
        |
            {
                &&& start.do_steps(context, from, (count - 1) as nat, between, context_between)
                &&& #[trigger] between.do_step(
                    context_between,
                    TimeStamp((from + count - 1) as u64),
                    after,
                    context_after,
                )
            };
        lemma_doing_keeps_window(
            start,
            context,
            from,
            (count - 1) as nat,
            between,
            context_between,
        );
    }
}

/// Undoing begins with the last frame.
proof fn lemma_undo_steps_from_front<T: Command>(
    start: HistoryView<CommandFrame<T>>,
    context: T::Context,
    last: u64,
    count: nat,
    after: HistoryView<CommandFrame<T>>,
    context_after: T::Context,
) -> (step: (HistoryView<CommandFrame<T>>, T::Context))
    requires
        0 < count <= last + 1,
        start.undo_steps(context, last, count, after, context_after),
    ensures
        start.undo_step(context, TimeStamp(last), step.0, step.1),
        count == 1 ==> step == (after, context_after),
        count > 1 ==> step.0.undo_steps(
            step.1,
            (last - 1) as u64,
            (count - 1) as nat,
            after,
            context_after,
        ),
    decreases count,
{
    let (between, context_between) = choose|
        between: HistoryView<CommandFrame<T>>,
        context_between: T::Context,
    |
        {
            &&& start.undo_steps(context, last, (count - 1) as nat, between, context_between)
            &&& #[trigger] between.undo_step(
                context_between,
                TimeStamp((last - (count - 1)) as u64),
                after,
                context_after,
            )
        };
    if count == 1 {
        (after, context_after)
    } else {
        let step = lemma_undo_steps_from_front(
            start,
            context,
            last,
            (count - 1) as nat,
            between,
            context_between,
        );
        if count == 2 {
            assert(step.0.undo_steps(step.1, (last - 1) as u64, 0, between, context_between));
        }
        assert(step.0.undo_steps(
            step.1,
            (last - 1) as u64,
            (count - 2) as nat,
            between,
            context_between,
        ));
        assert(between.undo_step(
            context_between,
            TimeStamp(((last - 1) as u64 - (count - 2)) as u64),
            after,
            context_after,
        ));
        step
    }
}

/// Undoing frames that were done takes back what doing them did, whatever became of other
/// frames.
proof fn lemma_undo_steps_take_back<T: Command>(
    start: HistoryView<CommandFrame<T>>,
    context: T::Context,
    from: u64,
    count: nat,
    after: HistoryView<CommandFrame<T>>,
    context_after: T::Context,
    begin: HistoryView<CommandFrame<T>>,
    back: HistoryView<CommandFrame<T>>,
    context_back: T::Context,
)
    requires
        takes_back::<T>(),
        count > 0,
        from + count - 1 <= u64::MAX,
        start.do_steps(context, from, count, after, context_after),
        alike(after, begin, from, count),
        begin.undo_steps(context_after, (from + count - 1) as u64, count, back, context_back),
    ensures
        context_back == context,
    decreases count,
{
    let last = (from + count - 1) as u64;
    let (between, context_between) = choose|
        between: HistoryView<CommandFrame<T>>,
        context_between: T::Context,
    |
        {
            &&& start.do_steps(context, from, (count - 1) as nat, between, context_between)
            &&& #[trigger] between.do_step(context_between, TimeStamp(last), after, context_after)
        };
    let step = lemma_undo_steps_from_front(
        begin,
        context_after,
        last,
        count,
        back,
        context_back,
    );
    assert(after.at(TimeStamp(last)) == begin.at(TimeStamp(last)));
    law_undo_takes_back_do(
        between.at(TimeStamp(last))->0.commands@,
        context_between,
        after.at(TimeStamp(last))->0.commands@,
        context_after,
        step.0.at(TimeStamp(last))->0.commands@,
        step.1,
    );
    if count > 1 {
        assert forall|tick: u64| from <= tick < from + (count - 1) implies #[trigger] between.at(
            TimeStamp(tick),
        ) == step.0.at(TimeStamp(tick)) by {
            assert(after.at(TimeStamp(tick)) == begin.at(TimeStamp(tick)));
            assert(after.at(TimeStamp(tick)) == between.at(TimeStamp(tick)));
            assert(begin.at(TimeStamp(tick)) == step.0.at(TimeStamp(tick)));
        }
        lemma_undo_steps_take_back(
            start,
            context,
            from,
            (count - 1) as nat,
            between,
            context_between,
            step.0,
            back,
            context_back,
        );
    }
}

/// If each command takes back what it did, then undoing a range of frames takes back what doing
/// the same range did.
pub proof fn law_undo_range_takes_back_do_range<T: Command>(
    start: HistoryView<CommandFrame<T>>,
    context: T::Context,
    range: TickRange,
    after: HistoryView<CommandFrame<T>>,
    context_after: T::Context,
    back: HistoryView<CommandFrame<T>>,
    context_back: T::Context,
)
    requires
        takes_back::<T>(),
        start.do_steps(
            context,
            start.done_range(range).0,
            ticks_before(start.done_range(range).0, start.done_range(range).1),
            after,
            context_after,
        ),
        after.undo_steps(
            context_after,
            saturating_difference(after.done_range(range).1, 1),
            ticks_before(after.done_range(range).0, after.done_range(range).1),
            back,
            context_back,
        ),
    ensures
        context_back == context,
{
    let (from, end) = start.done_range(range);
    lemma_doing_keeps_window(start, context, from, ticks_before(from, end), after, context_after);
    if from < end {
        lemma_undo_steps_take_back(
            start,
            context,
            from,
            ticks_before(from, end),
            after,
            context_after,
            after,
            back,
            context_back,
        );
    }
}

/// Whether the ids in a frame are apart from each other and from those to come.
pub open spec fn ids_apart<T: Command>(
    slots: Seq<CommandSlot<T>>,
    id_generator: CommandId,
) -> bool {
    &&& forall|i: int| 0 <= i < slots.len() ==> (#[trigger] slots[i]).id.0 < id_generator.0
    &&& forall|i: int, j: int|
        0 <= i < j < slots.len() ==> (#[trigger] slots[i]).id != (#[trigger] slots[j]).id
}

/// A command that is spawned gets an id that is not taken, under which it is found, and ids
/// stay apart.
pub proof fn law_spawned_ids_are_fresh<T: Command>(
    slots: Seq<CommandSlot<T>>,
    id_generator: CommandId,
    command: T,
)
    requires
        ids_apart(slots, id_generator),
        id_generator.0 < u64::MAX,
    ensures
        !has_id(slots, id_generator),
        is_first_with_id(
            slots.push(CommandSlot { id: id_generator, data: command }),
            id_generator,
            slots.len() as int,
        ),
        ids_apart(
            slots.push(CommandSlot { id: id_generator, data: command }),
            CommandId((id_generator.0 + 1) as u64),
        ),
{
}

/// Ids stay apart when commands are carried on to the next tick, and no command gets a new one.
pub proof fn law_ticking_keeps_ids_apart<T: Command>(
    slots: Seq<CommandSlot<T>>,
    id_generator: CommandId,
    left: Seq<CommandSlot<T>>,
)
    requires
        ids_apart(slots, id_generator),
        ticked(slots, Ok(left)),
    ensures
        ids_apart(left, id_generator),
        forall|i: int| 0 <= i < left.len() ==> has_id(slots, (#[trigger] left[i]).id),
    decreases slots.len(),
{
    if slots.len() > 0 {
        let before = choose|before: Result<Seq<CommandSlot<T>>, Error>|
            ticked(slots.drop_last(), before) && #[trigger] slot_ticked_behind(
                slots.last(),
                before,
                Ok(left),
            );
        let kept = before->Ok_0;
        law_ticking_keeps_ids_apart(slots.drop_last(), id_generator, kept);
        assert forall|i: int| 0 <= i < kept.len() implies has_id(slots, (#[trigger] kept[i]).id)
            && kept[i].id != slots.last().id by {
            let j = choose|j: int|
                0 <= j < slots.drop_last().len() && (#[trigger] slots.drop_last()[j]).id
                    == kept[i].id;
            assert(slots[j].id == kept[i].id);
        }
        assert(has_id(slots, slots.last().id)) by {
            assert(slots[slots.len() - 1].id == slots.last().id);
        }
    }
}

/// The last tick that a range states, where `now` is the last tick of an open one. A range that
/// ends before tick zero states none.
pub open spec fn states_last(range: TickRange, now: TimeStamp, last: u64) -> bool {
    match range.end {
        TickBound::Included(end) => end.0 == last,
        TickBound::Excluded(end) => end.0 == last + 1,
        TickBound::Unbounded => now.0 == last,
    }
}

/// The first tick that a range states, where `past` is the first tick of an open one.
pub open spec fn stated_first(range: TickRange, past: TimeStamp) -> int {
    match range.start {
        TickBound::Included(start) => start.0 as int,
        TickBound::Excluded(start) => start.0 + 1,
        TickBound::Unbounded => past.0 as int,
    }
}

proof fn lemma_done_ticks<T: Command>(
    start: HistoryView<CommandFrame<T>>,
    context: T::Context,
    from: u64,
    count: nat,
    after: HistoryView<CommandFrame<T>>,
    context_after: T::Context,
    timestamp: TimeStamp,
)
    requires
        start.do_steps(context, from, count, after, context_after),
        from + count <= u64::MAX + 1,
    ensures
        after.capacity == start.capacity,
        after.now == start.now,
        after.items.len() == start.items.len(),
        timestamp.0 < from || timestamp.0 >= from + count ==> after.at(timestamp) == start.at(
            timestamp,
        ),
        from <= timestamp.0 < from + count ==> {
            &&& start.at(timestamp) is Some
            &&& after.at(timestamp) is Some
            &&& after.at(timestamp)->0.id_generator == start.at(timestamp)->0.id_generator
            &&& exists|earlier: T::Context, later: T::Context| #[trigger]
                done(
                    start.at(timestamp)->0.commands@,
                    earlier,
                    after.at(timestamp)->0.commands@,
                    later,
                )
        },
    decreases count,
{
    if count > 0 {
        let tick = TimeStamp((from + count - 1) as u64);
        let (between, context_between) = choose|
            between: HistoryView<CommandFrame<T>>,
            context_between: T::Context,
        |
            {
                &&& start.do_steps(context, from, (count - 1) as nat, between, context_between)
                &&& #[trigger] between.do_step(
                    context_between,
                    TimeStamp((from + count - 1) as u64),
                    after,
                    context_after,
                )
            };
        let fewer = (count - 1) as nat;
        lemma_done_ticks(start, context, from, fewer, between, context_between, timestamp);
        if timestamp != tick {
            assert(after.at(timestamp) == between.at(timestamp));
        } else {
            assert(done(
                start.at(timestamp)->0.commands@,
                context_between,
                after.at(timestamp)->0.commands@,
                context_after,
            ));
        }
    }
}

proof fn lemma_undone_ticks<T: Command>(
    start: HistoryView<CommandFrame<T>>,
    context: T::Context,
    last: u64,
    count: nat,
    after: HistoryView<CommandFrame<T>>,
    context_after: T::Context,
    timestamp: TimeStamp,
)
    requires
        start.undo_steps(context, last, count, after, context_after),
        count <= last + 1,
    ensures
        after.capacity == start.capacity,
        after.now == start.now,
        after.items.len() == start.items.len(),
        timestamp.0 > last || timestamp.0 + count <= last ==> after.at(timestamp) == start.at(
            timestamp,
        ),
        last < timestamp.0 + count && timestamp.0 <= last ==> {
            &&& start.at(timestamp) is Some
            &&& after.at(timestamp) is Some
            &&& after.at(timestamp)->0.id_generator == start.at(timestamp)->0.id_generator
            &&& exists|earlier: T::Context, later: T::Context| #[trigger]
                undone(
                    start.at(timestamp)->0.commands@.reverse(),
                    earlier,
                    after.at(timestamp)->0.commands@.reverse(),
                    later,
                )
        },
    decreases count,
{
    if count > 0 {
        let tick = TimeStamp((last - (count - 1)) as u64);
        let (between, context_between) = choose|
            between: HistoryView<CommandFrame<T>>,
            context_between: T::Context,
        |
            {
                &&& start.undo_steps(context, last, (count - 1) as nat, between, context_between)
                &&& #[trigger] between.undo_step(
                    context_between,
                    TimeStamp((last - (count - 1)) as u64),
                    after,
                    context_after,
                )
            };
        let fewer = (count - 1) as nat;
        lemma_undone_ticks(start, context, last, fewer, between, context_between, timestamp);
        if timestamp != tick {
            assert(after.at(timestamp) == between.at(timestamp));
        } else {
            assert(undone(
                start.at(timestamp)->0.commands@.reverse(),
                context_between,
                after.at(timestamp)->0.commands@.reverse(),
                context_after,
            ));
        }
    }
}

/// Doing a range does the frames of the window from the first tick that the range states to the
/// one before the last that it states, each of them and no others: frames at that last tick and
/// behind are left alone, as are those before the range.
pub proof fn law_do_range_stops_at_its_end<T: Command>(
    start: HistoryView<CommandFrame<T>>,
    context: T::Context,
    range: TickRange,
    last: u64,
    after: HistoryView<CommandFrame<T>>,
    context_after: T::Context,
    timestamp: TimeStamp,
)
    requires
        start.consistent(),
        start.items.len() > 0,
        states_last(range, start.now, last),
        start.do_steps(
            context,
            start.done_range(range).0,
            ticks_before(start.done_range(range).0, start.done_range(range).1),
            after,
            context_after,
        ),
    ensures
        ({
            let past: int = start.now.0 - (start.items.len() - 1);
            let stated: int = stated_first(range, TimeStamp(past as u64));
            let first: int = if stated >= past { stated } else { past };
            let end: int = if last <= start.now.0 { last as int } else { start.now.0 as int };
            &&& ticks_before(start.done_range(range).0, start.done_range(range).1) == if first < end {
                end - first
            } else {
                0
            }
            &&& timestamp.0 >= last ==> after.at(timestamp) == start.at(timestamp)
            &&& timestamp.0 < first || timestamp.0 >= end ==> after.at(timestamp) == start.at(
                timestamp,
            )
            &&& first <= timestamp.0 < end ==> {
                &&& start.at(timestamp) is Some
                &&& after.at(timestamp) is Some
                &&& exists|earlier: T::Context, later: T::Context| #[trigger]
                    done(
                        start.at(timestamp)->0.commands@,
                        earlier,
                        after.at(timestamp)->0.commands@,
                        later,
                    )
            }
            &&& first >= end ==> context_after == context
        }),
        after.now == start.now,
        after.items.len() == start.items.len(),
        after.capacity == start.capacity,
{
    let (from, end) = start.done_range(range);
    lemma_done_ticks(
        start,
        context,
        from,
        ticks_before(from, end),
        after,
        context_after,
        timestamp,
    );
}

/// Undoing a range undoes the frames of the window from the one before the last tick that the
/// range states back to the first that it states, each of them and no others.
pub proof fn law_undo_range_starts_before_its_end<T: Command>(
    start: HistoryView<CommandFrame<T>>,
    context: T::Context,
    range: TickRange,
    last: u64,
    after: HistoryView<CommandFrame<T>>,
    context_after: T::Context,
    timestamp: TimeStamp,
)
    requires
        start.consistent(),
        start.items.len() > 0,
        states_last(range, start.now, last),
        start.undo_steps(
            context,
            saturating_difference(start.done_range(range).1, 1),
            ticks_before(start.done_range(range).0, start.done_range(range).1),
            after,
            context_after,
        ),
    ensures
        ({
            let past: int = start.now.0 - (start.items.len() - 1);
            let stated: int = stated_first(range, TimeStamp(past as u64));
            let first: int = if stated >= past { stated } else { past };
            let end: int = if last <= start.now.0 { last as int } else { start.now.0 as int };
            &&& timestamp.0 >= last ==> after.at(timestamp) == start.at(timestamp)
            &&& timestamp.0 < first || timestamp.0 >= end ==> after.at(timestamp) == start.at(
                timestamp,
            )
            &&& first <= timestamp.0 < end ==> {
                &&& start.at(timestamp) is Some
                &&& after.at(timestamp) is Some
                &&& exists|earlier: T::Context, later: T::Context| #[trigger]
                    undone(
                        start.at(timestamp)->0.commands@.reverse(),
                        earlier,
                        after.at(timestamp)->0.commands@.reverse(),
                        later,
                    )
            }
            &&& first >= end ==> context_after == context
        }),
        after.now == start.now,
        after.items.len() == start.items.len(),
        after.capacity == start.capacity,
{
    let (from, end) = start.done_range(range);
    lemma_undone_ticks(
        start,
        context,
        saturating_difference(end, 1),
        ticks_before(from, end),
        after,
        context_after,
        timestamp,
    );
}

/// A history without frames, and a range that ends before tick zero, give nothing to do and
/// nothing to undo.
pub proof fn law_nothing_to_do<T: Command>(start: HistoryView<CommandFrame<T>>, range: TickRange)
    requires
        start.items.len() == 0 || range.end == TickBound::Excluded(TimeStamp(0)),
    ensures
        ticks_before(start.done_range(range).0, start.done_range(range).1) == 0,
{
}

/// The first command of a frame is done first, on the context as it was; the others follow on
/// what it leaves.
pub proof fn law_done_from_the_first<T: Command>(
    slots: Seq<CommandSlot<T>>,
    context: T::Context,
    after: Seq<CommandSlot<T>>,
    context_after: T::Context,
) -> (between: T::Context)
    requires
        slots.len() > 0,
        done(slots, context, after, context_after),
    ensures
        after.len() == slots.len(),
        after[0].id == slots[0].id,
        slots[0].data.does(context, after[0].data, between),
        done(slots.skip(1), between, after.skip(1), context_after),
    decreases slots.len(),
{
    let before = choose|before: T::Context|
        {
            &&& done(slots.drop_last(), context, after.drop_last(), before)
            &&& #[trigger] slots.last().data.does(before, after.last().data, context_after)
        };
    if slots.len() == 1 {
        assert(slots.skip(1) =~= Seq::empty());
        assert(after.skip(1) =~= Seq::empty());
        assert(before == context);
        context_after
    } else {
        let between = law_done_from_the_first(
            slots.drop_last(),
            context,
            after.drop_last(),
            before,
        );
        assert(slots.skip(1).drop_last() =~= slots.drop_last().skip(1));
        assert(after.skip(1).drop_last() =~= after.drop_last().skip(1));
        assert(done(slots.skip(1).drop_last(), between, after.skip(1).drop_last(), before));
        assert(slots.skip(1).last().data.does(before, after.skip(1).last().data, context_after));
        between
    }
}

/// The last command of a frame is undone first, on the context as it was; the others follow on
/// what it leaves.
pub proof fn law_undone_from_the_last<T: Command>(
    slots: Seq<CommandSlot<T>>,
    context: T::Context,
    after: Seq<CommandSlot<T>>,
    context_after: T::Context,
) -> (between: T::Context)
    requires
        slots.len() > 0,
        undone(slots.reverse(), context, after.reverse(), context_after),
    ensures
        after.len() == slots.len(),
        slots.last().data.undoes(context, after.last().data, between),
        undone(
            slots.drop_last().reverse(),
            between,
            after.drop_last().reverse(),
            context_after,
        ),
{
    let between = lemma_undone_from_front(
        slots.reverse(),
        context,
        after.reverse(),
        context_after,
    );
    assert(slots.reverse()[0] == slots.last());
    assert(after.reverse()[0] == after.last());
    assert(slots.reverse().skip(1) =~= slots.drop_last().reverse());
    assert(after.reverse().skip(1) =~= after.drop_last().reverse());
    between
}

/// A frame that is done or undone keeps the ids of its commands and their order, and nothing
/// else of the history changes.
pub proof fn law_doing_keeps_the_rest<T: Command>(
    start: HistoryView<CommandFrame<T>>,
    context: T::Context,
    timestamp: TimeStamp,
    after: HistoryView<CommandFrame<T>>,
    context_after: T::Context,
    other: TimeStamp,
)
    requires
        start.do_step(context, timestamp, after, context_after) || start.undo_step(
            context,
            timestamp,
            after,
            context_after,
        ),
    ensures
        after.now == start.now,
        after.capacity == start.capacity,
        other != timestamp ==> after.at(other) == start.at(other),
        start.at(timestamp) is Some,
        after.at(timestamp) is Some,
        same_ids(start.at(timestamp)->0, after.at(timestamp)->0),
{
    let slots = start.at(timestamp)->0.commands@;
    let changed = after.at(timestamp)->0.commands@;
    if start.do_step(context, timestamp, after, context_after) {
        lemma_done_keeps_ids(slots, context, changed, context_after);
    } else {
        lemma_undone_keeps_ids(slots.reverse(), context, changed.reverse(), context_after);
        assert forall|i: int| 0 <= i < slots.len() implies (#[trigger] slots[i]).id
            == changed[i].id by {
            assert(slots.reverse()[slots.len() - 1 - i].id == changed.reverse()[slots.len() - 1
                - i].id);
        }
    }
}

proof fn lemma_done_keeps_ids<T: Command>(
    slots: Seq<CommandSlot<T>>,
    context: T::Context,
    after: Seq<CommandSlot<T>>,
    context_after: T::Context,
)
    requires
        done(slots, context, after, context_after),
    ensures
        after.len() == slots.len(),
        forall|i: int| 0 <= i < slots.len() ==> (#[trigger] slots[i]).id == after[i].id,
    decreases slots.len(),
{
    if slots.len() > 0 {
        let before = choose|before: T::Context|
            {
                &&& done(slots.drop_last(), context, after.drop_last(), before)
                &&& #[trigger] slots.last().data.does(before, after.last().data, context_after)
            };
        lemma_done_keeps_ids(slots.drop_last(), context, after.drop_last(), before);
        assert forall|i: int| 0 <= i < slots.len() implies (#[trigger] slots[i]).id
            == after[i].id by {
            if i < slots.len() - 1 {
                assert(slots.drop_last()[i].id == after.drop_last()[i].id);
            }
        }
    }
}

proof fn lemma_undone_keeps_ids<T: Command>(
    slots: Seq<CommandSlot<T>>,
    context: T::Context,
    after: Seq<CommandSlot<T>>,
    context_after: T::Context,
)
    requires
        undone(slots, context, after, context_after),
    ensures
        after.len() == slots.len(),
        forall|i: int| 0 <= i < slots.len() ==> (#[trigger] slots[i]).id == after[i].id,
    decreases slots.len(),
{
    if slots.len() > 0 {
        let before = choose|before: T::Context|
            {
                &&& undone(slots.drop_last(), context, after.drop_last(), before)
                &&& #[trigger] slots.last().data.undoes(before, after.last().data, context_after)
            };
        lemma_undone_keeps_ids(slots.drop_last(), context, after.drop_last(), before);
        assert forall|i: int| 0 <= i < slots.len() implies (#[trigger] slots[i]).id
            == after[i].id by {
            if i < slots.len() - 1 {
                assert(slots.drop_last()[i].id == after.drop_last()[i].id);
            }
        }
    }
}

/// Of the commands of a tick, each one that goes on is there on the next tick under its id, and
/// each one that is there is one that goes on.
pub proof fn law_ticked_commands_go_on<T: Command>(
    slots: Seq<CommandSlot<T>>,
    left: Seq<CommandSlot<T>>,
    place: int,
)
    requires
        ticked(slots, Ok(left)),
    ensures
        left.len() <= slots.len(),
        0 <= place < left.len() ==> exists|i: int|
            #![trigger slots[i]]
            {
                &&& 0 <= i < slots.len()
                &&& slots[i].id == left[place].id
                &&& call_ensures(T::tick, (&slots[i].data,), Ok(Some(left[place].data)))
            },
        0 <= place < slots.len() ==> {
            ||| call_ensures(T::tick, (&slots[place].data,), Ok(None))
            ||| exists|i: int|
                #![trigger left[i]]
                {
                    &&& 0 <= i < left.len()
                    &&& slots[place].id == left[i].id
                    &&& call_ensures(T::tick, (&slots[place].data,), Ok(Some(left[i].data)))
                }
        },
    decreases slots.len(),
{
    if slots.len() > 0 {
        let before = choose|before: Result<Seq<CommandSlot<T>>, Error>|
            ticked(slots.drop_last(), before) && #[trigger] slot_ticked_behind(
                slots.last(),
                before,
                Ok(left),
            );
        let kept = before->Ok_0;
        let rest = slots.drop_last();
        let last = slots.len() - 1;
        law_ticked_commands_go_on(rest, kept, place);
        assert(slots[last] == slots.last());
        if 0 <= place < left.len() {
            if place < kept.len() {
                let i = choose|i: int|
                    #![trigger rest[i]]
                    {
                        &&& 0 <= i < rest.len()
                        &&& rest[i].id == kept[place].id
                        &&& call_ensures(T::tick, (&rest[i].data,), Ok(Some(kept[place].data)))
                    };
                assert(slots[i] == rest[i]);
            }
        }
        if 0 <= place < last {
            if !call_ensures(T::tick, (&slots[place].data,), Ok(None)) {
                let i = choose|i: int|
                    #![trigger kept[i]]
                    {
                        &&& 0 <= i < kept.len()
                        &&& rest[place].id == kept[i].id
                        &&& call_ensures(T::tick, (&rest[place].data,), Ok(Some(kept[i].data)))
                    };
                assert(left[i] == kept[i]);
            }
        } else if place == last && left.len() > kept.len() {
            assert(left[kept.len() as int].id == slots.last().id);
        }
    }
}

/// Carrying commands on fails only as one of them fails.
pub proof fn law_ticking_fails_as_a_command<T: Command>(
    slots: Seq<CommandSlot<T>>,
    error: Error,
)
    requires
        ticked(slots, Err(error)),
    ensures
        exists|i: int|
            #![trigger slots[i]]
            0 <= i < slots.len() && call_ensures(T::tick, (&slots[i].data,), Err(error)),
    decreases slots.len(),
{
    if slots.len() > 0 {
        let before = choose|before: Result<Seq<CommandSlot<T>>, Error>|
            ticked(slots.drop_last(), before) && #[trigger] slot_ticked_behind(
                slots.last(),
                before,
                Err(error),
            );
        if before is Err {
            let rest = slots.drop_last();
            law_ticking_fails_as_a_command(rest, error);
            let i = choose|i: int|
                #![trigger rest[i]]
                0 <= i < rest.len() && call_ensures(T::tick, (&rest[i].data,), Err(error));
            assert(slots[i] == rest[i]);
        } else {
            assert(slots[slots.len() - 1] == slots.last());
        }
    }
}

/// Carrying commands on over some ticks reaches the tick behind the last of them, leaves what
/// lies before and behind alone, and makes each frame on the way the next of the one before it.
pub proof fn law_ticks_reach_behind_the_last<T: Command>(
    start: HistoryView<CommandFrame<T>>,
    from: u64,
    count: nat,
    after: HistoryView<CommandFrame<T>>,
    timestamp: TimeStamp,
)
    requires
        start.consistent(),
        start.capacity > 0,
        from + count <= u64::MAX,
        start.tick_steps(from, count, after, None),
    ensures
        after.consistent(),
        after.capacity == start.capacity,
        count > 0 ==> start.at(TimeStamp(from)) is Some,
        count > 0 ==> after.at(TimeStamp((from + count) as u64)) is Some,
        count > 0 ==> after.now.0 == if start.now.0 >= from + count {
            start.now.0 as int
        } else {
            from + count
        },
        timestamp.0 <= from && after.at(timestamp) is Some ==> after.at(timestamp) == start.at(
            timestamp,
        ),
        timestamp.0 > from + count ==> after.at(timestamp) == start.at(timestamp),
        from < timestamp.0 <= from + count && after.at(timestamp) is Some && after.at(
            TimeStamp((timestamp.0 - 1) as u64),
        ) is Some ==> {
            let earlier = after.at(TimeStamp((timestamp.0 - 1) as u64))->0;
            let here = after.at(timestamp)->0;
            &&& here.id_generator == earlier.id_generator
            &&& ticked(earlier.commands@, Ok(here.commands@))
        },
    decreases count,
{
    if count > 0 {
        let tick = TimeStamp((from + count - 1) as u64);
        let (between, earlier) = choose|
            between: HistoryView<CommandFrame<T>>,
            earlier: Option<Error>,
        |
            {
                &&& start.tick_steps(from, (count - 1) as nat, between, earlier)
                &&& #[trigger] between.tick_step_behind(
                    TimeStamp((from + count - 1) as u64),
                    earlier,
                    after,
                    None,
                )
            };
        let fewer = (count - 1) as nat;
        law_ticks_reach_behind_the_last(start, from, fewer, between, timestamp);
        let frame = between.at(tick)->0;
        let left = choose|left: Result<Seq<CommandSlot<T>>, Error>|
            {
                &&& #[trigger] ticked(frame.commands@, left)
                &&& match left {
                    Ok(commands) => between.frame_set(
                        next_tick(tick),
                        frame.id_generator,
                        commands,
                        after,
                    ),
                    Err(reason) => false,
                }
            };
        let next = choose|next: CommandFrame<T>|
            {
                &&& next.id_generator == frame.id_generator
                &&& next.commands@ == left->Ok_0
                &&& #[trigger] between.set_to(next_tick(tick), next, after)
            };
        assert(next_tick(tick).0 == from + count);
        between.law_set_then_get(next_tick(tick), next, after);
        assert(after.at(next_tick(tick)) == Some(next));
        if timestamp != next_tick(tick) {
            if after.at(timestamp) is Some && between.at(timestamp) is Some {
                between.law_set_keeps_the_rest(next_tick(tick), next, after, timestamp);
            }
        }
        if timestamp.0 > from && timestamp.0 <= from + count {
            let previous = TimeStamp((timestamp.0 - 1) as u64);
            if after.at(previous) is Some && between.at(previous) is Some {
                between.law_set_keeps_the_rest(next_tick(tick), next, after, previous);
            }
        }
    }
}

/// Carrying commands on over a range goes from the first tick of the window that the range
/// states to the last tick that it states, whether or not the window reaches it.
pub proof fn law_tick_range_reaches_its_end<T: Command>(
    start: HistoryView<CommandFrame<T>>,
    range: TickRange,
    last: u64,
)
    requires
        start.consistent(),
        start.items.len() > 0,
        states_last(range, start.now, last),
        range.start != TickBound::Excluded(TimeStamp(u64::MAX)),
    ensures
        ({
            let past: int = start.now.0 - (start.items.len() - 1);
            let stated: int = stated_first(range, TimeStamp(past as u64));
            let first: int = if stated >= past { stated } else { past };
            &&& start.ticked_range(range).0 == first
            &&& tick_count(start.ticked_range(range).0, start.ticked_range(range).1) == if first
                <= last {
                last - first + 1
            } else {
                0
            }
        }),
{
}

/// Without a frame to begin with, nothing is carried on, and the error names the tick.
pub proof fn law_ticking_needs_a_frame<T: Command>(
    start: HistoryView<CommandFrame<T>>,
    from: u64,
    count: nat,
    after: HistoryView<CommandFrame<T>>,
    error: Option<Error>,
)
    requires
        start.at(TimeStamp(from)) is None,
        count > 0,
        start.tick_steps(from, count, after, error),
    ensures
        after == start,
        error == Some(Error::NoFrame(from)),
    decreases count,
{
    let (between, earlier) = choose|
        between: HistoryView<CommandFrame<T>>,
        earlier: Option<Error>,
    |
        {
            &&& start.tick_steps(from, (count - 1) as nat, between, earlier)
            &&& #[trigger] between.tick_step_behind(
                TimeStamp((from + count - 1) as u64),
                earlier,
                after,
                error,
            )
        };
    if count > 1 {
        law_ticking_needs_a_frame(start, from, (count - 1) as nat, between, earlier);
    }
}

/// Of a snapshot that is applied, the frame is there: a whole one as a clone, and else with
/// what was told of it and what the frame before it gives.
pub proof fn law_snapshot_is_applied<T: Command>(
    start: HistoryView<CommandFrame<T>>,
    timestamp: TimeStamp,
    snapshot: CommandSnapshot<T>,
    after: HistoryView<CommandFrame<T>>,
)
    requires
        start.consistent(),
        start.capacity > 0,
        timestamp.0 > 0,
        start.apply_step(timestamp, snapshot, after, None),
    ensures
        after.at(timestamp) is Some,
        snapshot matches CommandSnapshot::Full(frame) ==> restored(frame, after.at(timestamp)->0),
        snapshot is SameAsLast ==> {
            let last = start.at(TimeStamp((timestamp.0 - 1) as u64));
            &&& last is Some
            &&& after.at(timestamp)->0.id_generator == last->0.id_generator
            &&& ticked(last->0.commands@, Ok(after.at(timestamp)->0.commands@))
        },
        snapshot matches CommandSnapshot::DifferentFromLast { id_generator, added, removed } ==> {
            let last = start.at(TimeStamp((timestamp.0 - 1) as u64));
            &&& last is Some
            &&& after.at(timestamp)->0.id_generator == id_generator
            &&& slots_changed(
                last->0.commands@,
                added@,
                removed@,
                after.at(timestamp)->0.commands@,
            )
        },
{
    match snapshot {
        CommandSnapshot::Full(frame) => {
            let copy = choose|copy: CommandFrame<T>|
                cloned::<CommandFrame<T>>(frame, copy) && #[trigger] start.set_to(
                    timestamp,
                    copy,
                    after,
                );
            start.law_set_then_get(timestamp, copy, after);
        },
        _ => {},
    }
}

/// Without the frame before it, a snapshot that tells only what changes is refused, and the
/// error names the tick of that frame.
pub proof fn law_changes_need_a_frame<T: Command>(
    start: HistoryView<CommandFrame<T>>,
    timestamp: TimeStamp,
    snapshot: CommandSnapshot<T>,
    after: HistoryView<CommandFrame<T>>,
    error: Option<Error>,
)
    requires
        timestamp.0 > 0,
        !(snapshot is Full),
        start.at(TimeStamp((timestamp.0 - 1) as u64)) is None,
        start.apply_step(timestamp, snapshot, after, error),
    ensures
        after == start,
        error == Some(Error::NoFrame((timestamp.0 - 1) as u64)),
{
}

proof fn lemma_applied_ends<T: Command>(
    start: HistoryView<CommandFrame<T>>,
    from: TimeStamp,
    snapshots: Seq<CommandSnapshot<T>>,
    after: HistoryView<CommandFrame<T>>,
    error: Option<Error>,
    last: u64,
)
    requires
        start.consistent(),
        start.capacity > 0,
        start.items.len() == 0 || start.now.0 <= last,
        from.0 + snapshots.len() <= last + 1,
        start.apply_steps(from, snapshots, after, error),
    ensures
        after.consistent(),
        after.capacity == start.capacity,
        after.items.len() == 0 || after.now.0 <= last,
    decreases snapshots.len(),
{
    if snapshots.len() > 0 {
        let (between, earlier) = choose|
            between: HistoryView<CommandFrame<T>>,
            earlier: Option<Error>,
        |
            {
                &&& start.apply_steps(from, snapshots.drop_last(), between, earlier)
                &&& #[trigger] between.apply_step_behind(
                    TimeStamp(saturating_sum(from.0, (snapshots.len() - 1) as u64)),
                    snapshots.last(),
                    earlier,
                    after,
                    error,
                )
            };
        lemma_applied_ends(start, from, snapshots.drop_last(), between, earlier, last);
    }
}

/// Applying an event ends the history with the last tick of the event: whatever was behind it
/// is gone, also where applying ends early.
pub proof fn law_applied_event_ends_the_history<T: Command>(
    start: HistoryView<CommandFrame<T>>,
    event: CommandHistoryEvent<T>,
    after: HistoryView<CommandFrame<T>>,
    error: Option<Error>,
    timestamp: TimeStamp,
)
    requires
        start.consistent(),
        start.capacity > 0,
        event.list().len() > 0,
        event.first().0 + event.list().len() <= u64::MAX,
        start.applied_event(event, after, error),
        timestamp.0 >= event.first().0 + event.list().len(),
    ensures
        after.at(timestamp) is None,
{
    let range = TickRange {
        start: TickBound::Unbounded,
        end: TickBound::Included(event.last()),
    };
    let trimmed = choose|trimmed: HistoryView<CommandFrame<T>>|
        {
            &&& #[trigger] start.trimmed_to(range, trimmed)
            &&& trimmed.apply_steps(event.first(), event.list(), after, error)
        };
    let last: u64 = (event.first().0 + event.list().len() - 1) as u64;
    assert(event.last().0 == last);
    start.law_trimmed_holds_the_range(range, trimmed, trimmed.now);
    lemma_applied_ends(trimmed, event.first(), event.list(), after, error, last);
}

/// What is left of a history in a range holds the frames of the range and no others.
pub proof fn law_trimmed_to_the_range<T: Command>(
    start: HistoryView<CommandFrame<T>>,
    range: TickRange,
    after: HistoryView<CommandFrame<T>>,
    timestamp: TimeStamp,
)
    requires
        start.consistent(),
        start.trimmed_to(range, after),
    ensures
        after.capacity == start.capacity,
        range.spec_contains(timestamp) ==> after.at(timestamp) == start.at(timestamp),
        !range.spec_contains(timestamp) ==> after.at(timestamp) is None,
{
    start.law_trimmed_holds_the_range(range, after, timestamp);
}

/// Frames are equal if their commands are, one by one, with their ids, and if the next command
/// would get the same id.
pub proof fn law_equal_frames<T: Command + PartialEq>(
    a: CommandFrame<T>,
    b: CommandFrame<T>,
    place: int,
)
    requires
        a.commands@.len() == b.commands@.len(),
        0 <= place < a.commands@.len(),
    ensures
        PartialEqSpec::eq_spec(&a, &b) ==> {
            &&& same_ids(a, b)
            &&& a.commands@[place].data.eq_spec(&b.commands@[place].data)
        },
        !a.commands@[place].data.eq_spec(&b.commands@[place].data) ==> !PartialEqSpec::eq_spec(
            &a,
            &b,
        ),
        same_ids(a, b) && (forall|i: int|
            0 <= i < a.commands@.len() ==> (#[trigger] a.commands@[i]).data.eq_spec(
                &b.commands@[i].data,
            )) ==> PartialEqSpec::eq_spec(&a, &b),
{
    if PartialEqSpec::eq_spec(&a, &b) {
        assert(same_slot(a.commands@[place], b.commands@[place]));
        assert forall|i: int| 0 <= i < a.commands@.len() implies (#[trigger] a.commands@[i]).id
            == b.commands@[i].id by {
            assert(same_slot(a.commands@[i], b.commands@[i]));
        }
    }
}

} // verus!
