//! Replication of maps, and of sets, which are maps to nothing.

use std::collections::BTreeMap;
use vstd::prelude::*;

use crate::buffer::Buffer;
use crate::codec::containers::write_count;
use crate::codec::maps::{gathered, law_gathered_again, lemma_with_model};
use crate::endian::{law_lowest_byte_first, little_endian, read_little_endian};
use crate::error::Error;
use crate::ordered_map::{keys_ascend, lemma_same_keys, OrderedMap};
use crate::replication::containers::{
    apply_fresh, emit_counted_items, emit_each, law_counted_items_round_trip,
    lemma_emit_each_step, lemma_parse_counted_items_is_within, models_of, parse_counted_items,
    parse_fresh,
};
use crate::replication::{DefaultReplicable, LosslessReplicable, Replicable};
use crate::std_maps::{by_key, into_btree_map, law_one_listing, lists, listing};
use crate::wire::{failure, Applied, Emitted};

verus! {

/// A key of a map and its value.
pub struct MapEntry<V> {
    pub key: u64,
    pub value: V,
}

impl<V: Replicable> Replicable for MapEntry<V> {
    type Model = (u64, V::Model);

    open spec fn model(self) -> (u64, V::Model) {
        (self.key, self.value.model())
    }

    open spec fn emit(self) -> Emitted {
        (self.key, self.value).emit()
    }

    open spec fn parse(prior: (u64, V::Model), bytes: Seq<u8>) -> Applied<(u64, V::Model)> {
        <(u64, V) as Replicable>::parse(prior, bytes)
    }

    proof fn parse_is_within(prior: (u64, V::Model), bytes: Seq<u8>) {
        <(u64, V) as Replicable>::parse_is_within(prior, bytes);
    }

    fn collect_changes(&self, buffer: &mut Buffer) -> (result: Result<(), Error>) {
        collect_entry(self.key, &self.value, buffer)
    }

    fn apply_changes(&mut self, buffer: &mut Buffer) -> (result: Result<(), Error>) {
        let ghost before = buffer@;
        let ghost prior = self.model();
        match self.key.apply_changes(buffer) {
            Ok(_) => {},
            Err(error) => {
                return Err(error);
            },
        }
        proof {
            let done = <(u64,) as Replicable>::parse((prior.0,), before.rest);
            <(u64,) as Replicable>::parse_is_within((prior.0,), before.rest);
            before.lemma_advanced_twice(
                done.consumed,
                V::parse(prior.1, before.rest.skip(done.consumed as int)).consumed,
            );
        }
        self.value.apply_changes(buffer)
    }
}

/// Writes a key and its value.
fn collect_entry<V: Replicable>(key: u64, value: &V, buffer: &mut Buffer) -> (result: Result<
    (),
    Error,
>)
    ensures
        final(buffer)@ == old(buffer)@.written((key, *value).emit().bytes),
        failure(result) == (key, *value).emit().error,
{
    let ghost before = buffer@;
    match key.collect_changes(buffer) {
        Ok(_) => {},
        Err(error) => {
            return Err(error);
        },
    }
    proof {
        before.lemma_written_twice((key,).emit().bytes, (*value).emit().bytes);
    }
    value.collect_changes(buffer)
}

impl<V: DefaultReplicable> Default for MapEntry<V> {
    fn default() -> (result: Self)
        ensures
            result.key == 0,
            V::default.ensures((), result.value),
    {
        MapEntry { key: 0, value: V::default() }
    }
}

impl<V: DefaultReplicable> DefaultReplicable for MapEntry<V> {
    open spec fn blank() -> (u64, V::Model) {
        (0, V::blank())
    }

    proof fn default_is_blank(value: MapEntry<V>) {
        V::default_is_blank(value.value);
    }
}

impl<V: LosslessReplicable> LosslessReplicable for MapEntry<V> {
    open spec fn fits(self) -> bool {
        self.value.fits()
    }

    proof fn law_round_trip(self, prior: (u64, V::Model), tail: Seq<u8>) {
        <(u64, V) as LosslessReplicable>::law_round_trip((self.key, self.value), prior, tail);
    }
}

/// The entries of a map, one by one.
pub open spec fn entries_of<V>(map: Seq<(u64, V)>) -> Seq<MapEntry<V>> {
    map.map_values(|pair: (u64, V)| MapEntry { key: pair.0, value: pair.1 })
}

impl<V: DefaultReplicable> Replicable for OrderedMap<V> {
    type Model = Seq<(u64, V::Model)>;

    open spec fn model(self) -> Seq<(u64, V::Model)> {
        models_of(entries_of(self@))
    }

    open spec fn emit(self) -> Emitted {
        emit_counted_items(entries_of(self@))
    }

    open spec fn parse(prior: Seq<(u64, V::Model)>, bytes: Seq<u8>) -> Applied<
        Seq<(u64, V::Model)>,
    > {
        let pairs = parse_counted_items::<MapEntry<V>>(prior, bytes);
        Applied {
            model: if bytes.len() >= 8 {
                gathered(pairs.model)
            } else {
                prior
            },
            error: pairs.error,
            consumed: pairs.consumed,
        }
    }

    proof fn parse_is_within(prior: Seq<(u64, V::Model)>, bytes: Seq<u8>) {
        lemma_parse_counted_items_is_within::<MapEntry<V>>(prior, bytes);
    }

    fn collect_changes(&self, buffer: &mut Buffer) -> (result: Result<(), Error>) {
        let ghost before = buffer@;
        let ghost items = entries_of(self@);
        let ghost count = little_endian(items.len(), 8);
        let total: usize = self.len();
        write_count(buffer, total);
        proof {
            before.written(count).lemma_written_nothing();
            before.lemma_written_twice(count, emit_each(items).bytes);
            assert(items.take(0) =~= Seq::empty());
        }
        let mut index: usize = 0;
        while index < total
            invariant
                index <= total,
                total == self@.len(),
                items == entries_of(self@),
                before == old(buffer)@,
                count == little_endian(items.len(), 8),
                emit_each(items.take(index as int)).error is None,
                buffer@ == before.written(count).written(
                    emit_each(items.take(index as int)).bytes,
                ),
                before.written(count).written(emit_each(items).bytes) == before.written(
                    count + emit_each(items).bytes,
                ),
            decreases total - index,
        {
            proof {
                lemma_emit_each_step(items, index as int);
                before.written(count).lemma_written_twice(
                    emit_each(items.take(index as int)).bytes,
                    items[index as int].emit().bytes,
                );
            }
            match collect_entry(self.key(index), self.value(index), buffer) {
                Ok(_) => {},
                Err(error) => {
                    return Err(error);
                },
            }
            index = index + 1;
        }
        assert(items.take(index as int) =~= items);
        Ok(())
    }

    fn apply_changes(&mut self, buffer: &mut Buffer) -> (result: Result<(), Error>) {
        let ghost before = buffer@;
        match read_little_endian(buffer, 8) {
            Ok(count) => {
                proof {
                    let items = parse_fresh::<MapEntry<V>>(before.rest.skip(8), count as nat);
                    before.lemma_advanced_twice(8, items.consumed);
                }
                let mut items: Vec<MapEntry<V>> = Vec::new();
                let result = apply_fresh(&mut items, buffer, count);
                *self = from_entries(items);
                result
            },
            Err(error) => Err(error),
        }
    }
}

/// The map that entries make, added in their order.
fn from_entries<V: Replicable>(items: Vec<MapEntry<V>>) -> (result: OrderedMap<V>)
    ensures
        models_of(entries_of(result@)) == gathered(models_of(items@)),
{
    let ghost held = items@;
    let ghost all = models_of(held);
    let mut map: OrderedMap<V> = OrderedMap::new();
    assert(models_of(entries_of(map@)) =~= gathered(all.take(0)));
    for item in each: items
        invariant
            each.seq() == held,
            all == models_of(held),
            models_of(entries_of(map@)) == gathered(all.take(each.index() as int)),
    {
        let ghost at = each.index() as int;
        let ghost before = map@;
        let MapEntry { key, value } = item;
        let _known: usize = map.len();
        assert(all[at] == (key, value.model()));
        assert(all.take(at + 1).drop_last() =~= all.take(at));
        proof {
            lemma_with_model(
                before,
                models_of(entries_of(before)),
                key,
                value,
                value.model(),
                |value: V| value.model(),
            );
        }
        map.insert(key, value);
        assert(models_of(entries_of(map@)) =~= gathered(all.take(at + 1)));
    }
    assert(all.take(all.len() as int) =~= all);
    map
}

impl<V: DefaultReplicable> DefaultReplicable for OrderedMap<V> {
    open spec fn blank() -> Seq<(u64, V::Model)> {
        Seq::empty()
    }

    proof fn default_is_blank(value: OrderedMap<V>) {
        assert(models_of(entries_of(value@)) =~= Seq::empty());
    }
}

/// Reading gives back the entries that were written.
proof fn lemma_entries_round_trip<V: DefaultReplicable + LosslessReplicable>(
    map: Seq<(u64, V)>,
    prior: Seq<(u64, V::Model)>,
    tail: Seq<u8>,
)
    requires
        keys_ascend(map),
        map.len() <= u64::MAX,
        forall|i: int| 0 <= i < map.len() ==> (#[trigger] map[i]).1.fits(),
        emit_counted_items(entries_of(map)).error is None,
    ensures
        <OrderedMap<V> as Replicable>::parse(
            prior,
            emit_counted_items(entries_of(map)).bytes + tail,
        ) == (Applied {
            model: models_of(entries_of(map)),
            error: None,
            consumed: emit_counted_items(entries_of(map)).bytes.len(),
        }),
{
    let items = entries_of(map);
    assert forall|i: int| 0 <= i < items.len() implies (#[trigger] items[i]).fits() by {
        assert(map[i].1.fits());
    }
    law_counted_items_round_trip(items, prior, tail);
    let all = emit_counted_items(items).bytes + tail;
    crate::endian::lemma_little_endian(items.len(), 8);
    assert(all.len() >= 8);
    lemma_same_keys(map, models_of(items), 0);
    law_gathered_again(models_of(items));
}

impl<V: DefaultReplicable + LosslessReplicable> LosslessReplicable for OrderedMap<V> {
    open spec fn fits(self) -> bool {
        &&& keys_ascend(self@)
        &&& self@.len() <= u64::MAX
        &&& forall|i: int| 0 <= i < self@.len() ==> (#[trigger] self@[i]).1.fits()
    }

    proof fn law_round_trip(self, prior: Seq<(u64, V::Model)>, tail: Seq<u8>) {
        lemma_entries_round_trip(self@, prior, tail);
    }
}

impl<V: DefaultReplicable> Replicable for BTreeMap<u64, V> {
    type Model = Seq<(u64, V::Model)>;

    open spec fn model(self) -> Seq<(u64, V::Model)> {
        models_of(entries_of(listing(self@)))
    }

    open spec fn emit(self) -> Emitted {
        emit_counted_items(entries_of(listing(self@)))
    }

    open spec fn parse(prior: Seq<(u64, V::Model)>, bytes: Seq<u8>) -> Applied<
        Seq<(u64, V::Model)>,
    > {
        <OrderedMap<V> as Replicable>::parse(prior, bytes)
    }

    proof fn parse_is_within(prior: Seq<(u64, V::Model)>, bytes: Seq<u8>) {
        <OrderedMap<V> as Replicable>::parse_is_within(prior, bytes);
    }

    fn collect_changes(&self, buffer: &mut Buffer) -> (result: Result<(), Error>) {
        let ghost before = buffer@;
        let ghost held = listing(self@);
        let ghost items = entries_of(held);
        let ghost count = little_endian(items.len(), 8);
        let pairs = by_key(self);
        let total: usize = pairs.len();
        write_count(buffer, total);
        proof {
            before.written(count).lemma_written_nothing();
            before.lemma_written_twice(count, emit_each(items).bytes);
            assert(items.take(0) =~= Seq::empty());
        }
        let mut index: usize = 0;
        while index < total
            invariant
                index <= total,
                total == pairs@.len() == held.len(),
                held == listing(self@),
                items == entries_of(held),
                forall|i: int|
                    0 <= i < pairs@.len() ==> (#[trigger] pairs@[i]).0 == held[i].0
                        && *pairs@[i].1 == held[i].1,
                before == old(buffer)@,
                count == little_endian(items.len(), 8),
                emit_each(items.take(index as int)).error is None,
                buffer@ == before.written(count).written(
                    emit_each(items.take(index as int)).bytes,
                ),
                before.written(count).written(emit_each(items).bytes) == before.written(
                    count + emit_each(items).bytes,
                ),
            decreases total - index,
        {
            proof {
                lemma_emit_each_step(items, index as int);
                before.written(count).lemma_written_twice(
                    emit_each(items.take(index as int)).bytes,
                    items[index as int].emit().bytes,
                );
            }
            let (key, value): (u64, &V) = pairs[index];
            match collect_entry(key, value, buffer) {
                Ok(_) => {},
                Err(error) => {
                    return Err(error);
                },
            }
            index = index + 1;
        }
        assert(items.take(index as int) =~= items);
        Ok(())
    }

    fn apply_changes(&mut self, buffer: &mut Buffer) -> (result: Result<(), Error>) {
        let ghost before = buffer@;
        match read_little_endian(buffer, 8) {
            Ok(count) => {
                proof {
                    let items = parse_fresh::<MapEntry<V>>(before.rest.skip(8), count as nat);
                    before.lemma_advanced_twice(8, items.consumed);
                }
                let mut items: Vec<MapEntry<V>> = Vec::new();
                let result = apply_fresh(&mut items, buffer, count);
                let entries = from_entries(items);
                let _known: usize = entries.len();
                let ghost held = entries@;
                *self = into_btree_map(entries);
                proof {
                    law_one_listing(held, held, self@);
                }
                result
            },
            Err(error) => Err(error),
        }
    }
}

impl<V: DefaultReplicable> DefaultReplicable for BTreeMap<u64, V> {
    open spec fn blank() -> Seq<(u64, V::Model)> {
        Seq::empty()
    }

    proof fn default_is_blank(value: BTreeMap<u64, V>) {
        let nothing = Seq::<(u64, V)>::empty();
        assert(lists(nothing, value@));
        law_one_listing(nothing, nothing, value@);
        assert(models_of(entries_of(nothing)) =~= Seq::empty());
    }
}

impl<V: DefaultReplicable + LosslessReplicable> LosslessReplicable for BTreeMap<u64, V> {
    open spec fn fits(self) -> bool {
        &&& keys_ascend(listing(self@))
        &&& listing(self@).len() <= u64::MAX
        &&& forall|i: int|
            0 <= i < listing(self@).len() ==> (#[trigger] listing(self@)[i]).1.fits()
    }

    proof fn law_round_trip(self, prior: Seq<(u64, V::Model)>, tail: Seq<u8>) {
        lemma_entries_round_trip(listing(self@), prior, tail);
    }
}

/// A map is written as the number of its entries in eight bytes and then its entries, by key; an
/// entry is its key and then its value. Maps with the same entries are written alike, whether
/// they are of this library or of the standard one.
pub proof fn law_entries_in_order<V: DefaultReplicable>(
    entries: OrderedMap<V>,
    map: BTreeMap<u64, V>,
    key: u64,
    value: V,
)
    ensures
        entries.emit().bytes.take(8) == little_endian(entries@.len(), 8),
        entries@.len() == 0 ==> entries.emit() == Emitted::of(little_endian(0, 8)),
        entries@ == seq![(key, value)] ==> entries.emit().bytes == little_endian(1, 8)
            + key.emit().bytes + value.emit().bytes,
        entries@.len() > 0 && entries@.last() == (key, value) ==> emit_each(entries_of(entries@))
            == emit_each(entries_of(entries@.drop_last())).followed_by(
            key.emit().followed_by(value.emit()),
        ),
        keys_ascend(entries@) && lists(entries@, map@) ==> map.emit() == entries.emit(),
{
    law_lowest_byte_first(entries@.len(), 8, 0);
    let items = entries_of(entries@);
    assert(entries.emit().bytes.take(8) =~= little_endian(entries@.len(), 8));
    if entries@.len() > 0 && entries@.last() == (key, value) {
        assert(items.drop_last() =~= entries_of(entries@.drop_last()));
        assert(items.last() == MapEntry { key, value });
    }
    if entries@.len() == 0 {
        assert(items =~= Seq::<MapEntry<V>>::empty());
        assert(entries.emit().bytes =~= little_endian(0, 8));
    }
    if entries@ == seq![(key, value)] {
        assert(items =~= seq![MapEntry { key, value }]);
        assert(items.drop_last() =~= Seq::<MapEntry<V>>::empty());
        assert(entries.emit().bytes =~= little_endian(1, 8) + key.emit().bytes
            + value.emit().bytes);
    }
    if keys_ascend(entries@) && lists(entries@, map@) {
        assert(exists|listed: Seq<(u64, V)>| keys_ascend(listed) && #[trigger] lists(listed, map@));
        law_one_listing(entries@, listing(map@), map@);
    }
}

} // verus!
