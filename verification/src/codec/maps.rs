//! Codecs for maps, and for sets, which are maps to nothing.

use std::collections::BTreeMap;
use vstd::prelude::*;

use crate::buffer::Buffer;
use crate::codec::containers::{
    emit_all, emit_counted, lemma_emit_all_step, lemma_parse_counted_is_within, models,
    parse_counted, write_count,
};
use crate::codec::Codec;
use crate::endian::little_endian;
use crate::error::Error;
use crate::ordered_map::{
    keys_ascend, law_with_value, lemma_place, lemma_same_keys, value_of, with_value, OrderedMap,
};
use crate::std_maps::{by_key, into_btree_map, law_one_listing, listing};
use crate::wire::{failure, Emitted, Parsed};

verus! {

/// The map that pairs make, added in their order.
pub open spec fn gathered<M>(pairs: Seq<(u64, M)>) -> Seq<(u64, M)>
    decreases pairs.len(),
{
    if pairs.len() == 0 {
        Seq::empty()
    } else {
        with_value(gathered(pairs.drop_last()), pairs.last().0, pairs.last().1)
    }
}

/// The keys of a map that pairs make ascend, whatever the order of the pairs.
pub proof fn law_gathered_ascends<M>(pairs: Seq<(u64, M)>)
    ensures
        keys_ascend(gathered(pairs)),
    decreases pairs.len(),
{
    if pairs.len() > 0 {
        law_gathered_ascends(pairs.drop_last());
        law_with_value(gathered(pairs.drop_last()), pairs.last().0, pairs.last().1, 0);
    }
}

/// A map is made of its own pairs.
pub proof fn law_gathered_again<M>(map: Seq<(u64, M)>)
    requires
        keys_ascend(map),
    ensures
        gathered(map) == map,
    decreases map.len(),
{
    if map.len() > 0 {
        let rest = map.drop_last();
        let (key, value) = map.last();
        assert forall|i: int, j: int| 0 <= i < j < rest.len() implies rest[i].0 < rest[j].0 by {
            assert(map[i].0 < map[j].0);
        }
        law_gathered_again(rest);
        assert forall|i: int| 0 <= i < rest.len() implies (#[trigger] rest[i]).0 < key by {
            assert(map[i].0 < map[map.len() - 1].0);
        }
        lemma_place(rest, key);
        assert(with_value(rest, key, value) =~= map);
    }
}

/// Adding a value and looking at what matters of values can be swapped.
pub proof fn lemma_with_model<V, M>(
    entries: Seq<(u64, V)>,
    others: Seq<(u64, M)>,
    key: u64,
    value: V,
    model: M,
    look: spec_fn(V) -> M,
)
    requires
        keys_ascend(entries),
        entries.len() == others.len(),
        forall|i: int|
            0 <= i < entries.len() ==> #[trigger] others[i] == (entries[i].0, look(entries[i].1)),
        model == look(value),
    ensures
        with_value(entries, key, value).len() == with_value(others, key, model).len(),
        forall|i: int|
            0 <= i < with_value(entries, key, value).len() ==> #[trigger] with_value(
                others,
                key,
                model,
            )[i] == (
                with_value(entries, key, value)[i].0,
                look(with_value(entries, key, value)[i].1),
            ),
{
    assert forall|i: int| 0 <= i < entries.len() implies (#[trigger] entries[i]).0
        == others[i].0 by {
        assert(others[i] == (entries[i].0, look(entries[i].1)));
    }
    lemma_same_keys(entries, others, key);
    lemma_place(entries, key);
}

/// Writes a key and its value.
fn encode_pair<C: Codec>(key: u64, value: &C::Value, buffer: &mut Buffer) -> (result: Result<
    (),
    Error,
>)
    ensures
        final(buffer)@ == old(buffer)@.written(<(u64, C) as Codec>::emit((key, *value)).bytes),
        failure(result) == <(u64, C) as Codec>::emit((key, *value)).error,
{
    let ghost before = buffer@;
    match <u64 as Codec>::encode(&key, buffer) {
        Ok(_) => {},
        Err(error) => {
            return Err(error);
        },
    }
    proof {
        before.lemma_written_twice(
            <(u64,) as Codec>::emit((key,)).bytes,
            C::emit(*value).bytes,
        );
    }
    C::encode(value, buffer)
}

impl<C: Codec> Codec for OrderedMap<C> {
    type Value = OrderedMap<C::Value>;

    type Model = Seq<(u64, C::Model)>;

    open spec fn model(value: OrderedMap<C::Value>) -> Seq<(u64, C::Model)> {
        models::<(u64, C)>(value@)
    }

    open spec fn emit(value: OrderedMap<C::Value>) -> Emitted {
        emit_counted::<(u64, C)>(value@)
    }

    open spec fn parse(bytes: Seq<u8>) -> Parsed<Seq<(u64, C::Model)>> {
        let pairs = parse_counted::<(u64, C)>(bytes);
        Parsed {
            result: match pairs.result {
                Ok(pairs) => Ok(gathered(pairs)),
                Err(error) => Err(error),
            },
            consumed: pairs.consumed,
        }
    }

    proof fn parse_is_within(bytes: Seq<u8>) {
        lemma_parse_counted_is_within::<(u64, C)>(bytes);
    }

    fn encode(message: &OrderedMap<C::Value>, buffer: &mut Buffer) -> (result: Result<(), Error>) {
        let ghost before = buffer@;
        let ghost count = little_endian(message@.len(), 8);
        let total: usize = message.len();
        write_count(buffer, total);
        proof {
            before.written(count).lemma_written_nothing();
            before.lemma_written_twice(count, emit_all::<(u64, C)>(message@).bytes);
            assert(message@.take(0) =~= Seq::empty());
        }
        let mut index: usize = 0;
        while index < total
            invariant
                index <= total,
                total == message@.len(),
                before == old(buffer)@,
                count == little_endian(message@.len(), 8),
                emit_all::<(u64, C)>(message@.take(index as int)).error is None,
                buffer@ == before.written(count).written(
                    emit_all::<(u64, C)>(message@.take(index as int)).bytes,
                ),
                before.written(count).written(emit_all::<(u64, C)>(message@).bytes)
                    == before.written(count + emit_all::<(u64, C)>(message@).bytes),
            decreases total - index,
        {
            proof {
                lemma_emit_all_step::<(u64, C)>(message@, index as int);
                before.written(count).lemma_written_twice(
                    emit_all::<(u64, C)>(message@.take(index as int)).bytes,
                    <(u64, C) as Codec>::emit(message@[index as int]).bytes,
                );
            }
            match encode_pair::<C>(message.key(index), message.value(index), buffer) {
                Ok(_) => {},
                Err(error) => {
                    return Err(error);
                },
            }
            index = index + 1;
        }
        assert(message@.take(index as int) =~= message@);
        Ok(())
    }

    fn decode(buffer: &mut Buffer) -> (result: Result<OrderedMap<C::Value>, Error>) {
        match Vec::<(u64, C)>::decode(buffer) {
            Ok(pairs) => {
                let ghost held = pairs@;
                let ghost all = models::<(u64, C)>(held);
                let mut map: OrderedMap<C::Value> = OrderedMap::new();
                assert(models::<(u64, C)>(map@) =~= gathered(all.take(0)));
                for pair in each: pairs
                    invariant
                        each.seq() == held,
                        all == models::<(u64, C)>(held),
                        models::<(u64, C)>(map@) == gathered(all.take(each.index() as int)),
                {
                    let ghost at = each.index() as int;
                    let ghost before = map@;
                    let (key, value) = pair;
                    let _known: usize = map.len();
                    assert(all[at] == (key, C::model(value)));
                    assert(all.take(at + 1).drop_last() =~= all.take(at));
                    proof {
                        lemma_with_model(
                            before,
                            models::<(u64, C)>(before),
                            key,
                            value,
                            C::model(value),
                            |value: C::Value| C::model(value),
                        );
                    }
                    map.insert(key, value);
                    assert(models::<(u64, C)>(map@) =~= gathered(all.take(at + 1)));
                }
                assert(all.take(all.len() as int) =~= all);
                Ok(map)
            },
            Err(error) => Err(error),
        }
    }
}

impl<C: Codec> Codec for BTreeMap<u64, C> {
    type Value = BTreeMap<u64, C::Value>;

    type Model = Seq<(u64, C::Model)>;

    open spec fn model(value: BTreeMap<u64, C::Value>) -> Seq<(u64, C::Model)> {
        models::<(u64, C)>(listing(value@))
    }

    open spec fn emit(value: BTreeMap<u64, C::Value>) -> Emitted {
        emit_counted::<(u64, C)>(listing(value@))
    }

    open spec fn parse(bytes: Seq<u8>) -> Parsed<Seq<(u64, C::Model)>> {
        <OrderedMap<C> as Codec>::parse(bytes)
    }

    proof fn parse_is_within(bytes: Seq<u8>) {
        <OrderedMap<C> as Codec>::parse_is_within(bytes);
    }

    fn encode(message: &BTreeMap<u64, C::Value>, buffer: &mut Buffer) -> (result: Result<
        (),
        Error,
    >) {
        let ghost before = buffer@;
        let ghost entries = listing(message@);
        let ghost count = little_endian(entries.len(), 8);
        let pairs = by_key(message);
        let total: usize = pairs.len();
        write_count(buffer, total);
        proof {
            before.written(count).lemma_written_nothing();
            before.lemma_written_twice(count, emit_all::<(u64, C)>(entries).bytes);
            assert(entries.take(0) =~= Seq::empty());
        }
        let mut index: usize = 0;
        while index < total
            invariant
                index <= total,
                total == pairs@.len() == entries.len(),
                entries == listing(message@),
                forall|i: int|
                    0 <= i < pairs@.len() ==> (#[trigger] pairs@[i]).0 == entries[i].0
                        && *pairs@[i].1 == entries[i].1,
                before == old(buffer)@,
                count == little_endian(entries.len(), 8),
                emit_all::<(u64, C)>(entries.take(index as int)).error is None,
                buffer@ == before.written(count).written(
                    emit_all::<(u64, C)>(entries.take(index as int)).bytes,
                ),
                before.written(count).written(emit_all::<(u64, C)>(entries).bytes)
                    == before.written(count + emit_all::<(u64, C)>(entries).bytes),
            decreases total - index,
        {
            proof {
                lemma_emit_all_step::<(u64, C)>(entries, index as int);
                before.written(count).lemma_written_twice(
                    emit_all::<(u64, C)>(entries.take(index as int)).bytes,
                    <(u64, C) as Codec>::emit(entries[index as int]).bytes,
                );
            }
            assert(entries[index as int] == (pairs@[index as int].0, *pairs@[index as int].1));
            let (key, value): (u64, &C::Value) = pairs[index];
            match encode_pair::<C>(key, value, buffer) {
                Ok(_) => {},
                Err(error) => {
                    return Err(error);
                },
            }
            index = index + 1;
        }
        assert(entries.take(index as int) =~= entries);
        Ok(())
    }

    fn decode(buffer: &mut Buffer) -> (result: Result<BTreeMap<u64, C::Value>, Error>) {
        match <OrderedMap<C> as Codec>::decode(buffer) {
            Ok(entries) => {
                let _known: usize = entries.len();
                let ghost held = entries@;
                let map = into_btree_map(entries);
                proof {
                    law_one_listing(held, held, map@);
                }
                Ok(map)
            },
            Err(error) => Err(error),
        }
    }
}

/// Of pairs with the same key the last one counts; the others are kept, each under its key.
pub proof fn law_last_pair_counts<M>(pairs: Seq<(u64, M)>, key: u64, value: M, other: u64)
    ensures
        gathered(Seq::<(u64, M)>::empty()).len() == 0,
        value_of(gathered(pairs.push((key, value))), key) == Some(value),
        other != key ==> value_of(gathered(pairs.push((key, value))), other) == value_of(
            gathered(pairs),
            other,
        ),
{
    law_gathered_ascends(pairs);
    assert(pairs.push((key, value)).drop_last() =~= pairs);
    law_with_value(gathered(pairs), key, value, key);
    law_with_value(gathered(pairs), key, value, other);
}

} // verus!
