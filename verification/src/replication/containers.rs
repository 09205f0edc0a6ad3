//! Replication of values that hold other values.

use std::collections::VecDeque;
use std::rc::Rc;
use std::sync::Arc;
use vstd::prelude::*;

use crate::buffer::Buffer;
use crate::codec::containers::{emit_flag, write_count};
use crate::endian::{
    law_little_endian_round_trip, lemma_byte_powers, lemma_little_endian, little_endian,
    parse_little_endian, read_little_endian,
};
use crate::error::Error;
use crate::primitive::{parse_byte, read_byte};
use crate::replication::{DefaultReplicable, LosslessReplicable, Replicable};
use crate::wire::{failure, Applied, Emitted};

verus! {

broadcast use vstd::std_specs::vecdeque::group_vec_dequeue_axioms;

/// What writing `items` one behind the other comes to.
pub open spec fn emit_each<T: Replicable>(items: Seq<T>) -> Emitted
    decreases items.len(),
{
    if items.len() == 0 {
        Emitted::nothing()
    } else {
        emit_each(items.drop_last()).followed_by(items.last().emit())
    }
}

/// What matters of each of `items`.
pub open spec fn models_of<T: Replicable>(items: Seq<T>) -> Seq<T::Model> {
    items.map_values(|item: T| item.model())
}

/// What reading `count` fresh values one behind the other comes to. The values before a
/// failure are kept.
pub open spec fn parse_fresh<T: DefaultReplicable>(bytes: Seq<u8>, count: nat) -> Applied<
    Seq<T::Model>,
>
    decreases count,
{
    if count == 0 {
        Applied { model: Seq::empty(), error: None, consumed: 0 }
    } else {
        let before = parse_fresh::<T>(bytes, (count - 1) as nat);
        if before.error is Some {
            before
        } else {
            let next = T::parse(T::blank(), bytes.skip(before.consumed as int));
            Applied {
                model: if next.error is None {
                    before.model.push(next.model)
                } else {
                    before.model
                },
                error: next.error,
                consumed: before.consumed + next.consumed,
            }
        }
    }
}

/// What writing `items` behind their number comes to.
pub open spec fn emit_counted_items<T: Replicable>(items: Seq<T>) -> Emitted {
    Emitted::of(little_endian(items.len(), 8)).followed_by(emit_each(items))
}

/// What reading values behind their number makes of a collection: once the number is known,
/// the former values are gone.
pub open spec fn parse_counted_items<T: DefaultReplicable>(
    prior: Seq<T::Model>,
    bytes: Seq<u8>,
) -> Applied<Seq<T::Model>> {
    let count = parse_little_endian(bytes, 8);
    match count.result {
        Ok(number) => {
            let items = parse_fresh::<T>(bytes.skip(8), number);
            Applied { model: items.model, error: items.error, consumed: 8 + items.consumed }
        },
        Err(error) => Applied { model: prior, error: Some(error), consumed: count.consumed },
    }
}

/// What reading into the first `count` of some values, each in its place, makes of them.
pub open spec fn parse_in_place<T: Replicable>(
    prior: Seq<T::Model>,
    bytes: Seq<u8>,
    count: nat,
) -> Applied<Seq<T::Model>>
    decreases count,
{
    if count == 0 {
        Applied { model: prior, error: None, consumed: 0 }
    } else {
        let before = parse_in_place::<T>(prior, bytes, (count - 1) as nat);
        if before.error is Some {
            before
        } else {
            let next = T::parse(prior[count - 1], bytes.skip(before.consumed as int));
            Applied {
                model: before.model.update(count - 1, next.model),
                error: next.error,
                consumed: before.consumed + next.consumed,
            }
        }
    }
}

/// Reading fresh values takes no more bytes than there are, and ends at the first failure.
pub proof fn lemma_parse_fresh<T: DefaultReplicable>(bytes: Seq<u8>, count: nat, more: nat)
    requires
        count <= more,
    ensures
        parse_fresh::<T>(bytes, count).consumed <= bytes.len(),
        parse_fresh::<T>(bytes, count).error is Some ==> parse_fresh::<T>(bytes, more)
            == parse_fresh::<T>(bytes, count),
    decreases more,
{
    if count < more {
        lemma_parse_fresh::<T>(bytes, count, (more - 1) as nat);
    } else if count > 0 {
        lemma_parse_fresh::<T>(bytes, (count - 1) as nat, (count - 1) as nat);
        let before = parse_fresh::<T>(bytes, (count - 1) as nat);
        T::parse_is_within(T::blank(), bytes.skip(before.consumed as int));
    }
}

/// Reading in place takes no more bytes than there are, and ends at the first failure.
pub proof fn lemma_parse_in_place<T: Replicable>(
    prior: Seq<T::Model>,
    bytes: Seq<u8>,
    count: nat,
    more: nat,
)
    requires
        count <= more,
    ensures
        parse_in_place::<T>(prior, bytes, count).consumed <= bytes.len(),
        count <= prior.len() ==> parse_in_place::<T>(prior, bytes, count).model.len()
            == prior.len(),
        forall|i: int|
            count <= i < prior.len() ==> parse_in_place::<T>(prior, bytes, count).model[i]
                == prior[i],
        parse_in_place::<T>(prior, bytes, count).error is Some ==> parse_in_place::<T>(
            prior,
            bytes,
            more,
        ) == parse_in_place::<T>(prior, bytes, count),
    decreases more,
{
    if count < more {
        lemma_parse_in_place::<T>(prior, bytes, count, (more - 1) as nat);
    } else if count > 0 {
        lemma_parse_in_place::<T>(prior, bytes, (count - 1) as nat, (count - 1) as nat);
        let before = parse_in_place::<T>(prior, bytes, (count - 1) as nat);
        T::parse_is_within(prior[count - 1], bytes.skip(before.consumed as int));
    }
}

/// Writing one value more.
pub proof fn lemma_emit_each_step<T: Replicable>(items: Seq<T>, index: int)
    requires
        0 <= index < items.len(),
        emit_each(items.take(index)).error is None,
    ensures
        emit_each(items.take(index + 1)) == emit_each(items.take(index)).followed_by(
            items[index].emit(),
        ),
        emit_each(items.take(index + 1)).error is Some ==> emit_each(items) == emit_each(
            items.take(index + 1),
        ),
{
    assert(items.take(index + 1).drop_last() =~= items.take(index));
    if emit_each(items.take(index + 1)).error is Some {
        lemma_emit_each_failed(items, index + 1, items.len() as int);
        assert(items.take(items.len() as int) =~= items);
    }
}

proof fn lemma_emit_each_failed<T: Replicable>(items: Seq<T>, index: int, end: int)
    requires
        0 <= index <= end <= items.len(),
        emit_each(items.take(index)).error is Some,
    ensures
        emit_each(items.take(end)) == emit_each(items.take(index)),
    decreases end - index,
{
    if index < end {
        lemma_emit_each_failed(items, index, end - 1);
        assert(items.take(end).drop_last() =~= items.take(end - 1));
    }
}

/// Fresh values become those that were written one behind the other.
pub proof fn law_fresh_round_trip<T: DefaultReplicable + LosslessReplicable>(
    items: Seq<T>,
    tail: Seq<u8>,
)
    requires
        emit_each(items).error is None,
        forall|i: int| 0 <= i < items.len() ==> (#[trigger] items[i]).fits(),
    ensures
        parse_fresh::<T>(emit_each(items).bytes + tail, items.len()) == (Applied {
            model: models_of(items),
            error: None,
            consumed: emit_each(items).bytes.len(),
        }),
    decreases items.len(),
{
    let all = emit_each(items).bytes + tail;
    if items.len() > 0 {
        let first = emit_each(items.drop_last());
        let last = items.last().emit();
        assert forall|i: int| 0 <= i < items.drop_last().len() implies (
        #[trigger] items.drop_last()[i]).fits() by {
            assert(items[i].fits());
        }
        assert(items[items.len() - 1].fits());
        law_fresh_round_trip(items.drop_last(), last.bytes + tail);
        T::law_round_trip(items.last(), T::blank(), tail);
        assert(all =~= first.bytes + (last.bytes + tail));
        assert(all.skip(first.bytes.len() as int) =~= last.bytes + tail);
        assert(models_of(items.drop_last()).push(items.last().model()) =~= models_of(items));
    } else {
        assert(models_of(items) =~= Seq::empty());
    }
}

/// A collection becomes the one that was written.
pub proof fn law_counted_items_round_trip<T: DefaultReplicable + LosslessReplicable>(
    items: Seq<T>,
    prior: Seq<T::Model>,
    tail: Seq<u8>,
)
    requires
        items.len() <= u64::MAX,
        emit_counted_items(items).error is None,
        forall|i: int| 0 <= i < items.len() ==> (#[trigger] items[i]).fits(),
    ensures
        parse_counted_items::<T>(prior, emit_counted_items(items).bytes + tail) == (Applied {
            model: models_of(items),
            error: None,
            consumed: emit_counted_items(items).bytes.len(),
        }),
{
    let content = emit_each(items).bytes;
    lemma_byte_powers();
    lemma_little_endian(items.len(), 8);
    law_little_endian_round_trip(items.len(), 8, content + tail);
    law_fresh_round_trip(items, tail);
    let all = emit_counted_items(items).bytes + tail;
    assert(all =~= little_endian(items.len(), 8) + (content + tail));
    assert(all.skip(8) =~= content + tail);
}

/// Writes values one behind the other.
fn collect_slice<T: Replicable>(items: &[T], buffer: &mut Buffer) -> (result: Result<(), Error>)
    ensures
        final(buffer)@ == old(buffer)@.written(emit_each(items@).bytes),
        failure(result) == emit_each(items@).error,
{
    let ghost before = buffer@;
    proof {
        before.lemma_written_nothing();
        assert(items@.take(0) =~= Seq::empty());
    }
    let mut index: usize = 0;
    while index < items.len()
        invariant
            index <= items@.len(),
            before == old(buffer)@,
            emit_each(items@.take(index as int)).error is None,
            buffer@ == before.written(emit_each(items@.take(index as int)).bytes),
        decreases items@.len() - index,
    {
        proof {
            lemma_emit_each_step(items@, index as int);
            before.lemma_written_twice(
                emit_each(items@.take(index as int)).bytes,
                items@[index as int].emit().bytes,
            );
        }
        match items[index].collect_changes(buffer) {
            Ok(_) => {},
            Err(error) => {
                return Err(error);
            },
        }
        index = index + 1;
    }
    assert(items@.take(index as int) =~= items@);
    Ok(())
}

/// Reads fresh values one behind the other into `items`, up to the first failure.
pub(crate) fn apply_fresh<T: DefaultReplicable>(items: &mut Vec<T>, buffer: &mut Buffer, count: u64) -> (result:
    Result<(), Error>)
    requires
        old(items)@.len() == 0,
    ensures
        models_of(final(items)@) == parse_fresh::<T>(old(buffer)@.rest, count as nat).model,
        failure(result) == parse_fresh::<T>(old(buffer)@.rest, count as nat).error,
        final(buffer)@ == old(buffer)@.advanced(
            parse_fresh::<T>(old(buffer)@.rest, count as nat).consumed,
        ),
{
    let ghost before = buffer@;
    let mut index: u64 = 0;
    proof {
        before.lemma_advanced_nothing();
        assert(models_of(items@) =~= Seq::empty());
    }
    while index < count
        invariant
            index <= count,
            before == old(buffer)@,
            buffer@ == before.advanced(parse_fresh::<T>(before.rest, index as nat).consumed),
            models_of(items@) == parse_fresh::<T>(before.rest, index as nat).model,
            parse_fresh::<T>(before.rest, index as nat).error is None,
        decreases count - index,
    {
        let ghost done = parse_fresh::<T>(before.rest, index as nat);
        let ghost next = T::parse(T::blank(), before.rest.skip(done.consumed as int));
        proof {
            lemma_parse_fresh::<T>(before.rest, index as nat, index as nat);
            before.lemma_advanced_twice(done.consumed, next.consumed);
            lemma_parse_fresh::<T>(before.rest, (index + 1) as nat, count as nat);
        }
        let mut item = T::default();
        proof {
            T::default_is_blank(item);
        }
        match item.apply_changes(buffer) {
            Ok(_) => {
                let ghost earlier = items@;
                items.push(item);
                assert(models_of(earlier).push(item.model()) =~= models_of(items@));
            },
            Err(error) => {
                return Err(error);
            },
        }
        index = index + 1;
    }
    Ok(())
}

impl<T: DefaultReplicable> Replicable for Vec<T> {
    type Model = Seq<T::Model>;

    open spec fn model(self) -> Seq<T::Model> {
        models_of(self@)
    }

    open spec fn emit(self) -> Emitted {
        emit_counted_items(self@)
    }

    open spec fn parse(prior: Seq<T::Model>, bytes: Seq<u8>) -> Applied<Seq<T::Model>> {
        parse_counted_items::<T>(prior, bytes)
    }

    proof fn parse_is_within(prior: Seq<T::Model>, bytes: Seq<u8>) {
        lemma_parse_counted_items_is_within::<T>(prior, bytes);
    }

    fn collect_changes(&self, buffer: &mut Buffer) -> (result: Result<(), Error>) {
        let ghost before = buffer@;
        write_count(buffer, self.len());
        proof {
            before.lemma_written_twice(little_endian(self@.len(), 8), emit_each(self@).bytes);
        }
        collect_slice(self.as_slice(), buffer)
    }

    fn apply_changes(&mut self, buffer: &mut Buffer) -> (result: Result<(), Error>) {
        let ghost before = buffer@;
        match read_little_endian(buffer, 8) {
            Ok(count) => {
                proof {
                    let items = parse_fresh::<T>(before.rest.skip(8), count as nat);
                    before.lemma_advanced_twice(8, items.consumed);
                }
                self.clear();
                apply_fresh(self, buffer, count)
            },
            Err(error) => Err(error),
        }
    }
}

pub proof fn lemma_parse_counted_items_is_within<T: DefaultReplicable>(
    prior: Seq<T::Model>,
    bytes: Seq<u8>,
)
    ensures
        parse_counted_items::<T>(prior, bytes).consumed <= bytes.len(),
{
    let count = parse_little_endian(bytes, 8);
    match count.result {
        Ok(number) => {
            lemma_parse_fresh::<T>(bytes.skip(8), number, number);
        },
        Err(_) => {},
    }
}

impl<T: DefaultReplicable> DefaultReplicable for Vec<T> {
    open spec fn blank() -> Seq<T::Model> {
        Seq::empty()
    }

    proof fn default_is_blank(value: Vec<T>) {
        assert(models_of(value@) =~= Seq::empty());
    }
}

impl<T: DefaultReplicable + LosslessReplicable> LosslessReplicable for Vec<T> {
    open spec fn fits(self) -> bool {
        self@.len() <= u64::MAX && forall|i: int|
            0 <= i < self@.len() ==> (#[trigger] self@[i]).fits()
    }

    proof fn law_round_trip(self, prior: Seq<T::Model>, tail: Seq<u8>) {
        law_counted_items_round_trip(self@, prior, tail);
    }
}

impl<T: DefaultReplicable> Replicable for VecDeque<T> {
    type Model = Seq<T::Model>;

    open spec fn model(self) -> Seq<T::Model> {
        models_of(self@)
    }

    open spec fn emit(self) -> Emitted {
        emit_counted_items(self@)
    }

    open spec fn parse(prior: Seq<T::Model>, bytes: Seq<u8>) -> Applied<Seq<T::Model>> {
        parse_counted_items::<T>(prior, bytes)
    }

    proof fn parse_is_within(prior: Seq<T::Model>, bytes: Seq<u8>) {
        lemma_parse_counted_items_is_within::<T>(prior, bytes);
    }

    fn collect_changes(&self, buffer: &mut Buffer) -> (result: Result<(), Error>) {
        let ghost before = buffer@;
        let ghost count = little_endian(self@.len(), 8);
        write_count(buffer, self.len());
        proof {
            before.written(count).lemma_written_nothing();
            before.lemma_written_twice(count, emit_each(self@).bytes);
            assert(self@.take(0) =~= Seq::empty());
        }
        let mut index: usize = 0;
        while index < self.len()
            invariant
                index <= self@.len(),
                before == old(buffer)@,
                count == little_endian(self@.len(), 8),
                emit_each(self@.take(index as int)).error is None,
                buffer@ == before.written(count).written(
                    emit_each(self@.take(index as int)).bytes,
                ),
                before.written(count).written(emit_each(self@).bytes) == before.written(
                    count + emit_each(self@).bytes,
                ),
            decreases self@.len() - index,
        {
            proof {
                lemma_emit_each_step(self@, index as int);
                before.written(count).lemma_written_twice(
                    emit_each(self@.take(index as int)).bytes,
                    self@[index as int].emit().bytes,
                );
            }
            match self[index].collect_changes(buffer) {
                Ok(_) => {},
                Err(error) => {
                    return Err(error);
                },
            }
            index = index + 1;
        }
        assert(self@.take(index as int) =~= self@);
        Ok(())
    }

    fn apply_changes(&mut self, buffer: &mut Buffer) -> (result: Result<(), Error>) {
        let ghost before = buffer@;
        match read_little_endian(buffer, 8) {
            Ok(count) => {
                proof {
                    let items = parse_fresh::<T>(before.rest.skip(8), count as nat);
                    before.lemma_advanced_twice(8, items.consumed);
                }
                self.clear();
                let mut items: Vec<T> = Vec::new();
                let result = apply_fresh(&mut items, buffer, count);
                let ghost all = items@;
                while items.len() > 0
                    invariant
                        items@ + self@ =~= all,
                    decreases items@.len(),
                {
                    match items.pop() {
                        Some(item) => self.push_front(item),
                        None => {},
                    }
                }
                assert(self@ =~= all);
                result
            },
            Err(error) => Err(error),
        }
    }
}

impl<T: DefaultReplicable> DefaultReplicable for VecDeque<T> {
    open spec fn blank() -> Seq<T::Model> {
        Seq::empty()
    }

    proof fn default_is_blank(value: VecDeque<T>) {
        assert(models_of(value@) =~= Seq::empty());
    }
}

impl<T: DefaultReplicable + LosslessReplicable> LosslessReplicable for VecDeque<T> {
    open spec fn fits(self) -> bool {
        self@.len() <= u64::MAX && forall|i: int|
            0 <= i < self@.len() ==> (#[trigger] self@[i]).fits()
    }

    proof fn law_round_trip(self, prior: Seq<T::Model>, tail: Seq<u8>) {
        law_counted_items_round_trip(self@, prior, tail);
    }
}

impl<T: Replicable, const N: usize> Replicable for [T; N] {
    type Model = Seq<T::Model>;

    open spec fn model(self) -> Seq<T::Model> {
        models_of(self@)
    }

    open spec fn emit(self) -> Emitted {
        emit_each(self@)
    }

    open spec fn parse(prior: Seq<T::Model>, bytes: Seq<u8>) -> Applied<Seq<T::Model>> {
        parse_in_place::<T>(prior, bytes, N as nat)
    }

    proof fn parse_is_within(prior: Seq<T::Model>, bytes: Seq<u8>) {
        lemma_parse_in_place::<T>(prior, bytes, N as nat, N as nat);
    }

    fn collect_changes(&self, buffer: &mut Buffer) -> (result: Result<(), Error>) {
        collect_slice(vstd::array::array_as_slice(self), buffer)
    }

    fn apply_changes(&mut self, buffer: &mut Buffer) -> (result: Result<(), Error>) {
        let ghost before = buffer@;
        let ghost prior = self.model();
        proof {
            before.lemma_advanced_nothing();
            assert(self@.len() == N);
        }
        let mut index: usize = 0;
        while index < N
            invariant
                index <= N,
                self@.len() == N,
                prior.len() == N,
                before == old(buffer)@,
                prior == old(self).model(),
                models_of(self@) == parse_in_place::<T>(prior, before.rest, index as nat).model,
                parse_in_place::<T>(prior, before.rest, index as nat).error is None,
                buffer@ == before.advanced(
                    parse_in_place::<T>(prior, before.rest, index as nat).consumed,
                ),
            decreases N - index,
        {
            let ghost items = self@;
            let ghost done = parse_in_place::<T>(prior, before.rest, index as nat);
            let ghost next = T::parse(
                prior[index as int],
                before.rest.skip(done.consumed as int),
            );
            proof {
                lemma_parse_in_place::<T>(prior, before.rest, index as nat, index as nat);
                before.lemma_advanced_twice(done.consumed, next.consumed);
                lemma_parse_in_place::<T>(prior, before.rest, (index + 1) as nat, N as nat);
                assert(models_of(items)[index as int] == prior[index as int]);
            }
            let result = self[index].apply_changes(buffer);
            assert(models_of(self@) =~= models_of(items).update(index as int, next.model));
            match result {
                Ok(_) => {},
                Err(error) => {
                    return Err(error);
                },
            }
            index = index + 1;
        }
        Ok(())
    }
}

/// Values in an array become those that were written one behind the other.
pub proof fn law_in_place_round_trip<T: LosslessReplicable>(
    items: Seq<T>,
    prior: Seq<T::Model>,
    tail: Seq<u8>,
    count: nat,
)
    requires
        count <= items.len() == prior.len(),
        emit_each(items.take(count as int)).error is None,
        forall|i: int| 0 <= i < items.len() ==> (#[trigger] items[i]).fits(),
    ensures
        parse_in_place::<T>(prior, emit_each(items.take(count as int)).bytes + tail, count)
            == (Applied {
            model: models_of(items.take(count as int)) + prior.skip(count as int),
            error: None,
            consumed: emit_each(items.take(count as int)).bytes.len(),
        }),
    decreases count,
{
    let written = items.take(count as int);
    let all = emit_each(written).bytes + tail;
    if count > 0 {
        let first = emit_each(written.drop_last());
        let last = written.last().emit();
        assert(written.drop_last() =~= items.take(count - 1));
        assert(items[count - 1].fits());
        law_in_place_round_trip(items, prior, last.bytes + tail, (count - 1) as nat);
        T::law_round_trip(written.last(), prior[count - 1], tail);
        assert(all =~= first.bytes + (last.bytes + tail));
        assert(all.skip(first.bytes.len() as int) =~= last.bytes + tail);
        assert((models_of(items.take(count - 1)) + prior.skip(count - 1)).update(
            count - 1,
            written.last().model(),
        ) =~= models_of(written) + prior.skip(count as int));
    } else {
        assert(models_of(written) + prior.skip(0) =~= prior);
    }
}

impl<T: DefaultReplicable> Replicable for Option<T> {
    type Model = Option<T::Model>;

    open spec fn model(self) -> Option<T::Model> {
        match self {
            Some(value) => Some(value.model()),
            None => None,
        }
    }

    /// A flag, and behind it the value if there is one.
    open spec fn emit(self) -> Emitted {
        match self {
            Some(value) => emit_flag(1).followed_by(value.emit()),
            None => emit_flag(0),
        }
    }

    /// A fresh value behind the flag one, and none behind the flag zero.
    open spec fn parse(prior: Option<T::Model>, bytes: Seq<u8>) -> Applied<Option<T::Model>> {
        let flag = parse_byte(bytes);
        match flag.result {
            Ok(byte) => if byte == 1 {
                let inner = T::parse(T::blank(), bytes.skip(1));
                Applied {
                    model: if inner.error is None {
                        Some(inner.model)
                    } else {
                        prior
                    },
                    error: inner.error,
                    consumed: 1 + inner.consumed,
                }
            } else if byte == 0 {
                Applied { model: None, error: None, consumed: 1 }
            } else {
                Applied { model: prior, error: Some(Error::InvalidFlag), consumed: 1 }
            },
            Err(error) => Applied { model: prior, error: Some(error), consumed: flag.consumed },
        }
    }

    proof fn parse_is_within(prior: Option<T::Model>, bytes: Seq<u8>) {
        if bytes.len() > 0 {
            T::parse_is_within(T::blank(), bytes.skip(1));
        }
    }

    fn collect_changes(&self, buffer: &mut Buffer) -> (result: Result<(), Error>) {
        let ghost before = buffer@;
        match self {
            Some(value) => {
                buffer.write_byte(1);
                proof {
                    before.lemma_written_twice(seq![1u8], value.emit().bytes);
                }
                value.collect_changes(buffer)
            },
            None => {
                buffer.write_byte(0);
                Ok(())
            },
        }
    }

    fn apply_changes(&mut self, buffer: &mut Buffer) -> (result: Result<(), Error>) {
        let ghost before = buffer@;
        match read_byte(buffer) {
            Ok(flag) => if flag == 1 {
                let mut value = T::default();
                proof {
                    T::default_is_blank(value);
                    before.lemma_advanced_twice(
                        1,
                        T::parse(T::blank(), before.rest.skip(1)).consumed,
                    );
                }
                match value.apply_changes(buffer) {
                    Ok(_) => {
                        *self = Some(value);
                        Ok(())
                    },
                    Err(error) => Err(error),
                }
            } else if flag == 0 {
                *self = None;
                Ok(())
            } else {
                Err(Error::InvalidFlag)
            },
            Err(error) => Err(error),
        }
    }
}

impl<T: DefaultReplicable> DefaultReplicable for Option<T> {
    open spec fn blank() -> Option<T::Model> {
        None
    }

    proof fn default_is_blank(value: Option<T>) {
    }
}

impl<T: DefaultReplicable + LosslessReplicable> LosslessReplicable for Option<T> {
    open spec fn fits(self) -> bool {
        self matches Some(value) ==> value.fits()
    }

    proof fn law_round_trip(self, prior: Option<T::Model>, tail: Seq<u8>) {
        let all = self.emit().bytes + tail;
        match self {
            Some(value) => {
                T::law_round_trip(value, T::blank(), tail);
                assert(all.skip(1) =~= value.emit().bytes + tail);
            },
            None => {},
        }
    }
}

impl<OK: DefaultReplicable, ERR: DefaultReplicable> Replicable for Result<OK, ERR> {
    type Model = Result<OK::Model, ERR::Model>;

    open spec fn model(self) -> Result<OK::Model, ERR::Model> {
        match self {
            Ok(value) => Ok(value.model()),
            Err(value) => Err(value.model()),
        }
    }

    /// A flag, and behind it the value of the side that the flag tells.
    open spec fn emit(self) -> Emitted {
        match self {
            Ok(value) => emit_flag(1).followed_by(value.emit()),
            Err(value) => emit_flag(0).followed_by(value.emit()),
        }
    }

    /// The good side behind the flag one, and the other behind the flag zero.
    open spec fn parse(prior: Result<OK::Model, ERR::Model>, bytes: Seq<u8>) -> Applied<
        Result<OK::Model, ERR::Model>,
    > {
        let flag = parse_byte(bytes);
        match flag.result {
            Ok(byte) => if byte == 1 {
                let inner = OK::parse(OK::blank(), bytes.skip(1));
                Applied {
                    model: if inner.error is None {
                        Ok(inner.model)
                    } else {
                        prior
                    },
                    error: inner.error,
                    consumed: 1 + inner.consumed,
                }
            } else if byte == 0 {
                let inner = ERR::parse(ERR::blank(), bytes.skip(1));
                Applied {
                    model: if inner.error is None {
                        Err(inner.model)
                    } else {
                        prior
                    },
                    error: inner.error,
                    consumed: 1 + inner.consumed,
                }
            } else {
                Applied { model: prior, error: Some(Error::InvalidFlag), consumed: 1 }
            },
            Err(error) => Applied { model: prior, error: Some(error), consumed: flag.consumed },
        }
    }

    proof fn parse_is_within(prior: Result<OK::Model, ERR::Model>, bytes: Seq<u8>) {
        if bytes.len() > 0 {
            OK::parse_is_within(OK::blank(), bytes.skip(1));
            ERR::parse_is_within(ERR::blank(), bytes.skip(1));
        }
    }

    fn collect_changes(&self, buffer: &mut Buffer) -> (result: Result<(), Error>) {
        let ghost before = buffer@;
        match self {
            Ok(value) => {
                buffer.write_byte(1);
                proof {
                    before.lemma_written_twice(seq![1u8], value.emit().bytes);
                }
                value.collect_changes(buffer)
            },
            Err(value) => {
                buffer.write_byte(0);
                proof {
                    before.lemma_written_twice(seq![0u8], value.emit().bytes);
                }
                value.collect_changes(buffer)
            },
        }
    }

    fn apply_changes(&mut self, buffer: &mut Buffer) -> (result: Result<(), Error>) {
        let ghost before = buffer@;
        match read_byte(buffer) {
            Ok(flag) => if flag == 1 {
                let mut value = OK::default();
                proof {
                    OK::default_is_blank(value);
                    before.lemma_advanced_twice(
                        1,
                        OK::parse(OK::blank(), before.rest.skip(1)).consumed,
                    );
                }
                match value.apply_changes(buffer) {
                    Ok(_) => {
                        *self = Ok(value);
                        Ok(())
                    },
                    Err(error) => Err(error),
                }
            } else if flag == 0 {
                let mut value = ERR::default();
                proof {
                    ERR::default_is_blank(value);
                    before.lemma_advanced_twice(
                        1,
                        ERR::parse(ERR::blank(), before.rest.skip(1)).consumed,
                    );
                }
                match value.apply_changes(buffer) {
                    Ok(_) => {
                        *self = Err(value);
                        Ok(())
                    },
                    Err(error) => Err(error),
                }
            } else {
                Err(Error::InvalidFlag)
            },
            Err(error) => Err(error),
        }
    }
}

impl<OK: DefaultReplicable + LosslessReplicable, ERR: DefaultReplicable + LosslessReplicable> LosslessReplicable for Result<
    OK,
    ERR,
> {
    open spec fn fits(self) -> bool {
        match self {
            Ok(value) => value.fits(),
            Err(value) => value.fits(),
        }
    }

    proof fn law_round_trip(self, prior: Result<OK::Model, ERR::Model>, tail: Seq<u8>) {
        let all = self.emit().bytes + tail;
        match self {
            Ok(value) => {
                OK::law_round_trip(value, OK::blank(), tail);
                assert(all.skip(1) =~= value.emit().bytes + tail);
            },
            Err(value) => {
                ERR::law_round_trip(value, ERR::blank(), tail);
                assert(all.skip(1) =~= value.emit().bytes + tail);
            },
        }
    }
}

impl<T: Replicable> Replicable for Box<T> {
    type Model = T::Model;

    open spec fn model(self) -> T::Model {
        (*self).model()
    }

    open spec fn emit(self) -> Emitted {
        (*self).emit()
    }

    open spec fn parse(prior: T::Model, bytes: Seq<u8>) -> Applied<T::Model> {
        T::parse(prior, bytes)
    }

    proof fn parse_is_within(prior: T::Model, bytes: Seq<u8>) {
        T::parse_is_within(prior, bytes);
    }

    fn collect_changes(&self, buffer: &mut Buffer) -> (result: Result<(), Error>) {
        (**self).collect_changes(buffer)
    }

    fn apply_changes(&mut self, buffer: &mut Buffer) -> (result: Result<(), Error>) {
        (**self).apply_changes(buffer)
    }
}

impl<T: DefaultReplicable> DefaultReplicable for Box<T> {
    open spec fn blank() -> T::Model {
        T::blank()
    }

    proof fn default_is_blank(value: Box<T>) {
        T::default_is_blank(*value);
    }
}

impl<T: LosslessReplicable> LosslessReplicable for Box<T> {
    open spec fn fits(self) -> bool {
        (*self).fits()
    }

    proof fn law_round_trip(self, prior: T::Model, tail: Seq<u8>) {
        T::law_round_trip(*self, prior, tail);
    }
}

/// What reading a fresh value makes of one that it takes the place of, if reading goes through.
pub open spec fn parse_afresh<T: DefaultReplicable>(prior: T::Model, bytes: Seq<u8>) -> Applied<
    T::Model,
> {
    let fresh = T::parse(T::blank(), bytes);
    Applied { model: if fresh.error is None { fresh.model } else { prior }, ..fresh }
}

/// `Rc::get_mut`: the shared value, to be changed in place, if nobody shares it.
#[verifier::external_body]
fn rc_get_mut<T>(shared: &mut Rc<T>) -> (result: Option<&mut T>)
    ensures
        result matches Some(value) ==> *value == **old(shared) && **final(shared) == *final(value),
        result is None ==> *final(shared) == *old(shared),
{
    Rc::get_mut(shared)
}

/// Whether asking if nobody else shares the value can give `alone`.
pub closed spec fn rc_alone<T>(shared: Rc<T>, alone: bool) -> bool {
    exists|at: &mut Rc<T>, got: Option<&mut T>|
        *at == shared && #[trigger] call_ensures(rc_get_mut::<T>, (at,), got) && alone == (
        got is Some)
}

/// Takes on the state that is read from the cursor on: in place if nobody shares the value,
/// else a fresh value takes its place if reading goes through.
pub fn apply_rc_changes<T: DefaultReplicable>(
    shared: &mut Rc<T>,
    buffer: &mut Buffer,
) -> (result: Result<(), Error>)
    ensures
        exists|alone: bool|
            {
                let applied = if alone {
                    T::parse((**old(shared)).model(), old(buffer)@.rest)
                } else {
                    parse_afresh::<T>((**old(shared)).model(), old(buffer)@.rest)
                };
                &&& #[trigger] rc_alone(*old(shared), alone)
                &&& (**final(shared)).model() == applied.model
                &&& failure(result) == applied.error
                &&& final(buffer)@ == old(buffer)@.advanced(applied.consumed)
            },
{
    match rc_get_mut(shared) {
        Some(value) => {
            assert(rc_alone(*old(shared), true));
            value.apply_changes(buffer)
        },
        None => {
            assert(rc_alone(*old(shared), false));
            let mut value = T::default();
            proof {
                T::default_is_blank(value);
            }
            match value.apply_changes(buffer) {
                Ok(_) => {
                    *shared = Rc::new(value);
                    Ok(())
                },
                Err(error) => Err(error),
            }
        },
    }
}

/// `Arc::get_mut`: the shared value, to be changed in place, if nobody shares it.
#[verifier::external_body]
pub(crate) fn arc_get_mut<T>(shared: &mut Arc<T>) -> (result: Option<&mut T>)
    ensures
        result matches Some(value) ==> *value == **old(shared) && **final(shared) == *final(value),
        result is None ==> *final(shared) == *old(shared),
{
    Arc::get_mut(shared)
}

/// Whether asking if nobody else shares the value can give `alone`.
pub closed spec fn arc_alone<T>(shared: Arc<T>, alone: bool) -> bool {
    exists|at: &mut Arc<T>, got: Option<&mut T>|
        *at == shared && #[trigger] call_ensures(arc_get_mut::<T>, (at,), got) && alone == (
        got is Some)
}

/// Takes on the state that is read from the cursor on: in place if nobody shares the value,
/// else a fresh value takes its place if reading goes through.
pub fn apply_arc_changes<T: DefaultReplicable>(
    shared: &mut Arc<T>,
    buffer: &mut Buffer,
) -> (result: Result<(), Error>)
    ensures
        exists|alone: bool|
            {
                let applied = if alone {
                    T::parse((**old(shared)).model(), old(buffer)@.rest)
                } else {
                    parse_afresh::<T>((**old(shared)).model(), old(buffer)@.rest)
                };
                &&& #[trigger] arc_alone(*old(shared), alone)
                &&& (**final(shared)).model() == applied.model
                &&& failure(result) == applied.error
                &&& final(buffer)@ == old(buffer)@.advanced(applied.consumed)
            },
{
    match arc_get_mut(shared) {
        Some(value) => {
            assert(arc_alone(*old(shared), true));
            value.apply_changes(buffer)
        },
        None => {
            assert(arc_alone(*old(shared), false));
            let mut value = T::default();
            proof {
                T::default_is_blank(value);
            }
            match value.apply_changes(buffer) {
                Ok(_) => {
                    *shared = Arc::new(value);
                    Ok(())
                },
                Err(error) => Err(error),
            }
        },
    }
}

/// Items follow one another, with their number in eight bytes in front where it is not known
/// otherwise.
pub proof fn law_items_follow_one_another<T: Replicable>(items: Seq<T>, item: T)
    ensures
        emit_each(Seq::<T>::empty()) == Emitted::nothing(),
        emit_each(items.push(item)) == emit_each(items).followed_by(item.emit()),
        emit_counted_items(items).bytes == little_endian(items.len(), 8) + emit_each(items).bytes,
        emit_counted_items(items).error == emit_each(items).error,
{
    assert(items.push(item).drop_last() =~= items);
}

/// A value that may be missing, and one of two, are told by a byte in front; a byte other than
/// zero and one is refused, and then the value stays as it was.
pub proof fn law_flags_are_zero_or_one<T: DefaultReplicable, E: DefaultReplicable>(
    value: T,
    error: E,
    prior: Option<T::Model>,
    prior_result: Result<T::Model, E::Model>,
    bytes: Seq<u8>,
)
    ensures
        Some(value).emit().bytes == seq![1u8] + value.emit().bytes,
        None::<T>.emit() == Emitted::of(seq![0u8]),
        Ok::<T, E>(value).emit().bytes == seq![1u8] + value.emit().bytes,
        Err::<T, E>(error).emit().bytes == seq![0u8] + error.emit().bytes,
        bytes.len() > 0 && bytes[0] == 0 ==> <Option<T> as Replicable>::parse(prior, bytes).model
            is None && <Option<T> as Replicable>::parse(prior, bytes).error is None,
        bytes.len() > 0 && bytes[0] > 1 ==> {
            &&& <Option<T> as Replicable>::parse(prior, bytes).model == prior
            &&& <Option<T> as Replicable>::parse(prior, bytes).error == Some(Error::InvalidFlag)
            &&& <Result<T, E> as Replicable>::parse(prior_result, bytes).model == prior_result
            &&& <Result<T, E> as Replicable>::parse(prior_result, bytes).error == Some(
                Error::InvalidFlag,
            )
        },
{
}

/// A fresh value takes the place of the one that was there if it can be read, whatever that one
/// was; if it cannot, the one that was there stays.
pub proof fn law_replaced_by_a_fresh_value<T: DefaultReplicable>(
    prior: T::Model,
    other: T::Model,
    bytes: Seq<u8>,
)
    ensures
        parse_afresh::<T>(prior, bytes).error is Some ==> parse_afresh::<T>(prior, bytes).model
            == prior,
        parse_afresh::<T>(prior, bytes).error is None ==> parse_afresh::<T>(prior, bytes)
            == parse_afresh::<T>(other, bytes) && parse_afresh::<T>(prior, bytes) == T::parse(
            T::blank(),
            bytes,
        ),
        parse_afresh::<T>(prior, bytes).error == T::parse(T::blank(), bytes).error,
        parse_afresh::<T>(prior, bytes).consumed == T::parse(T::blank(), bytes).consumed,
{
}

} // verus!
