//! Values by number, in the order of the numbers.

use vstd::prelude::*;

verus! {

/// Whether keys go up without repeats.
pub open spec fn keys_ascend<V>(entries: Seq<(u64, V)>) -> bool {
    forall|i: int, j: int| 0 <= i < j < entries.len() ==> entries[i].0 < entries[j].0
}

/// Whether there is an entry under `key`.
pub open spec fn has_key<V>(entries: Seq<(u64, V)>, key: u64) -> bool {
    exists|i: int| 0 <= i < entries.len() && (#[trigger] entries[i]).0 == key
}

/// Where the entry under `key` stands, or would stand.
pub open spec fn place_of<V>(entries: Seq<(u64, V)>, key: u64) -> int
    decreases entries.len(),
{
    if entries.len() == 0 || entries.last().0 < key {
        entries.len() as int
    } else {
        place_of(entries.drop_last(), key)
    }
}

/// The value under `key`.
pub open spec fn value_of<V>(entries: Seq<(u64, V)>, key: u64) -> Option<V> {
    if has_key(entries, key) {
        Some(entries[place_of(entries, key)].1)
    } else {
        None
    }
}

/// The entries with `value` under `key`, in place of what was there.
pub open spec fn with_value<V>(entries: Seq<(u64, V)>, key: u64, value: V) -> Seq<(u64, V)> {
    if has_key(entries, key) {
        entries.update(place_of(entries, key), (key, value))
    } else {
        entries.insert(place_of(entries, key), (key, value))
    }
}

/// The entries but the one under `key`.
pub open spec fn without_key<V>(entries: Seq<(u64, V)>, key: u64) -> Seq<(u64, V)> {
    if has_key(entries, key) {
        entries.remove(place_of(entries, key))
    } else {
        entries
    }
}

/// What the place of a key says of the keys around it.
pub proof fn lemma_place<V>(entries: Seq<(u64, V)>, key: u64)
    requires
        keys_ascend(entries),
    ensures
        0 <= place_of(entries, key) <= entries.len(),
        forall|i: int| 0 <= i < place_of(entries, key) ==> (#[trigger] entries[i]).0 < key,
        forall|i: int|
            place_of(entries, key) <= i < entries.len() ==> (#[trigger] entries[i]).0 >= key,
        has_key(entries, key) ==> place_of(entries, key) < entries.len() && entries[place_of(
            entries,
            key,
        )].0 == key,
    decreases entries.len(),
{
    if entries.len() > 0 && entries.last().0 >= key {
        let rest = entries.drop_last();
        lemma_place(rest, key);
        assert forall|i: int| 0 <= i < place_of(entries, key) implies (#[trigger] entries[i]).0
            < key by {
            assert(rest[i] == entries[i]);
        }
        assert forall|i: int| place_of(entries, key) <= i < entries.len() implies (
        #[trigger] entries[i]).0 >= key by {
            if i < rest.len() {
                assert(rest[i] == entries[i]);
            }
        }
    }
    if has_key(entries, key) {
        let i = choose|i: int| 0 <= i < entries.len() && (#[trigger] entries[i]).0 == key;
        let place = place_of(entries, key);
        if place < i {
            assert(entries[place].0 < entries[i].0);
        }
    }
}

/// A value that was put under a key is there, and the others are as they were.
pub proof fn law_with_value<V>(entries: Seq<(u64, V)>, key: u64, value: V, other: u64)
    requires
        keys_ascend(entries),
    ensures
        keys_ascend(with_value(entries, key, value)),
        value_of(with_value(entries, key, value), key) == Some(value),
        other != key ==> value_of(with_value(entries, key, value), other) == value_of(
            entries,
            other,
        ),
{
    let after = with_value(entries, key, value);
    let place = place_of(entries, key);
    lemma_place(entries, key);
    assert(keys_ascend(after)) by {
        assert forall|i: int, j: int| 0 <= i < j < after.len() implies after[i].0 < after[j].0 by {
            if !has_key(entries, key) && place < entries.len() {
                assert(entries[place].0 != key);
            }
        }
    }
    assert(after[place].0 == key);
    lemma_place(after, key);
    lemma_only_place(after, key, place);
    if other != key {
        lemma_place(entries, other);
        lemma_place(after, other);
        if has_key(entries, other) {
            let at = place_of(entries, other);
            let shifted = if has_key(entries, key) || at < place {
                at
            } else {
                at + 1
            };
            assert(after[shifted] == entries[at]);
            lemma_only_place(after, other, shifted);
        }
        if has_key(after, other) {
            let at = place_of(after, other);
            let shifted = if has_key(entries, key) || at < place {
                at
            } else {
                at - 1
            };
            assert(entries[shifted] == after[at]);
            lemma_only_place(entries, other, shifted);
        }
    }
}

/// A key that was taken out is gone, and the others are as they were.
pub proof fn law_without_key<V>(entries: Seq<(u64, V)>, key: u64, other: u64)
    requires
        keys_ascend(entries),
    ensures
        keys_ascend(without_key(entries, key)),
        value_of(without_key(entries, key), key) is None,
        other != key ==> value_of(without_key(entries, key), other) == value_of(entries, other),
{
    let after = without_key(entries, key);
    let place = place_of(entries, key);
    lemma_place(entries, key);
    if has_key(entries, key) {
        assert(keys_ascend(after));
        if has_key(after, key) {
            let i = choose|i: int| 0 <= i < after.len() && (#[trigger] after[i]).0 == key;
            if i < place {
                assert(entries[i].0 < entries[place].0);
            } else {
                assert(entries[place].0 < entries[i + 1].0);
            }
        }
        if other != key {
            lemma_place(entries, other);
            lemma_place(after, other);
            if has_key(entries, other) {
                let at = place_of(entries, other);
                let shifted = if at < place {
                    at
                } else {
                    at - 1
                };
                assert(after[shifted] == entries[at]);
                lemma_only_place(after, other, shifted);
            }
            if has_key(after, other) {
                let at = place_of(after, other);
                let shifted = if at < place {
                    at
                } else {
                    at + 1
                };
                assert(entries[shifted] == after[at]);
                lemma_only_place(entries, other, shifted);
            }
        }
    }
}

/// Taking out what was added leaves what was there.
pub proof fn law_without_what_was_added<V>(entries: Seq<(u64, V)>, key: u64, value: V)
    requires
        keys_ascend(entries),
        !has_key(entries, key),
    ensures
        without_key(with_value(entries, key, value), key) == entries,
{
    let added = with_value(entries, key, value);
    law_with_value(entries, key, value, key);
    lemma_place(entries, key);
    assert(added[place_of(entries, key)].0 == key);
    lemma_only_place(added, key, place_of(entries, key));
    assert(without_key(added, key) =~= entries);
}

/// A key stands in one place only.
pub proof fn lemma_only_place<V>(entries: Seq<(u64, V)>, key: u64, place: int)
    requires
        keys_ascend(entries),
        0 <= place < entries.len(),
        entries[place].0 == key,
    ensures
        has_key(entries, key),
        place_of(entries, key) == place,
{
    assert(has_key(entries, key));
    lemma_place(entries, key);
    let found = place_of(entries, key);
    if found < place {
        assert(entries[found].0 < entries[place].0);
    } else if place < found {
        assert(entries[place].0 < key);
    }
}

/// Where a key stands depends on the keys alone.
pub proof fn lemma_same_keys<V, W>(entries: Seq<(u64, V)>, others: Seq<(u64, W)>, key: u64)
    requires
        entries.len() == others.len(),
        forall|i: int| 0 <= i < entries.len() ==> (#[trigger] entries[i]).0 == others[i].0,
    ensures
        has_key(entries, key) == has_key(others, key),
        place_of(entries, key) == place_of(others, key),
        keys_ascend(entries) == keys_ascend(others),
    decreases entries.len(),
{
    if has_key(entries, key) {
        let i = choose|i: int| 0 <= i < entries.len() && (#[trigger] entries[i]).0 == key;
        assert(others[i].0 == key);
    }
    if has_key(others, key) {
        let i = choose|i: int| 0 <= i < others.len() && (#[trigger] others[i]).0 == key;
        assert(entries[i].0 == key);
    }
    if keys_ascend(entries) {
        assert forall|i: int, j: int| 0 <= i < j < others.len() implies others[i].0
            < others[j].0 by {
            assert(entries[i].0 < entries[j].0);
        }
    }
    if keys_ascend(others) {
        assert forall|i: int, j: int| 0 <= i < j < entries.len() implies entries[i].0
            < entries[j].0 by {
            assert(others[i].0 < others[j].0);
        }
    }
    if entries.len() > 0 {
        assert(entries[entries.len() - 1].0 == others[others.len() - 1].0);
        lemma_same_keys(entries.drop_last(), others.drop_last(), key);
    }
}

/// The entries with what their values mean.
pub open spec fn viewed<V: View>(entries: Seq<(u64, V)>) -> Seq<(u64, V::V)> {
    Seq::new(entries.len(), |i: int| (entries[i].0, entries[i].1@))
}

/// Looking at what values mean changes nothing about where they stand.
pub proof fn lemma_viewed<V: View>(entries: Seq<(u64, V)>, key: u64, value: V)
    requires
        keys_ascend(entries),
    ensures
        keys_ascend(viewed(entries)),
        has_key(viewed(entries), key) == has_key(entries, key),
        place_of(viewed(entries), key) == place_of(entries, key),
        viewed(with_value(entries, key, value)) == with_value(viewed(entries), key, value@),
        viewed(without_key(entries, key)) == without_key(viewed(entries), key),
        value_of(entries, key) matches Some(found) ==> value_of(viewed(entries), key) == Some(
            found@,
        ),
{
    lemma_same_keys(entries, viewed(entries), key);
    lemma_place(entries, key);
    assert(viewed(with_value(entries, key, value)) =~= with_value(viewed(entries), key, value@));
    assert(viewed(without_key(entries, key)) =~= without_key(viewed(entries), key));
}

/// Looking at what values mean, with one of them changed.
pub proof fn lemma_viewed_update<V: View>(entries: Seq<(u64, V)>, place: int, value: V)
    requires
        0 <= place < entries.len(),
    ensures
        viewed(entries.update(place, (entries[place].0, value))) == viewed(entries).update(
            place,
            (entries[place].0, value@),
        ),
{
    assert(viewed(entries.update(place, (entries[place].0, value))) =~= viewed(entries).update(
        place,
        (entries[place].0, value@),
    ));
}

/// A map from numbers to values that is walked in the order of the numbers. Other than a
/// `BTreeMap`, as far as that is specified, it lets values be changed where they stand and takes
/// the first entry out.
pub struct OrderedMap<V> {
    keys: Vec<u64>,
    values: Vec<V>,
}

impl<V> View for OrderedMap<V> {
    type V = Seq<(u64, V)>;

    closed spec fn view(&self) -> Seq<(u64, V)> {
        Seq::new(self.keys@.len(), |i: int| (self.keys@[i], self.values@[i]))
    }
}

impl<V> OrderedMap<V> {
    /// Every key has a value, and keys go up without repeats.
    #[verifier::type_invariant]
    spec fn keys_are_in_order(self) -> bool {
        &&& self.keys@.len() == self.values@.len()
        &&& forall|i: int, j: int| 0 <= i < j < self.keys@.len() ==> self.keys@[i] < self.keys@[j]
    }

    /// A map without entries.
    pub fn new() -> (result: Self)
        ensures
            result@ == Seq::<(u64, V)>::empty(),
    {
        let result = OrderedMap { keys: Vec::new(), values: Vec::new() };
        assert(result@ =~= Seq::<(u64, V)>::empty());
        result
    }

    pub fn len(&self) -> (result: usize)
        ensures
            result == self@.len(),
            keys_ascend(self@),
    {
        proof {
            use_type_invariant(self);
        }
        self.keys.len()
    }

    pub fn is_empty(&self) -> (result: bool)
        ensures
            result == (self@.len() == 0),
    {
        self.keys.len() == 0
    }

    /// Where the entry under `key` stands or would stand, and whether it is there.
    pub fn find(&self, key: u64) -> (result: (usize, bool))
        ensures
            result.0 == place_of(self@, key),
            result.1 == has_key(self@, key),
            result.0 <= self@.len(),
            result.1 ==> result.0 < self@.len() && self@[result.0 as int].0 == key,
            keys_ascend(self@),
    {
        proof {
            use_type_invariant(self);
            lemma_place(self@, key);
        }
        let mut low: usize = 0;
        let mut high: usize = self.keys.len();
        while low < high
            invariant
                self@.len() == self.keys@.len(),
                forall|i: int|
                    0 <= i < self@.len() ==> (#[trigger] self@[i]).0 == self.keys@[i],
                low <= place_of(self@, key) <= high <= self@.len(),
                forall|i: int|
                    0 <= i < place_of(self@, key) ==> (#[trigger] self@[i]).0 < key,
                forall|i: int|
                    place_of(self@, key) <= i < self@.len() ==> (#[trigger] self@[i]).0 >= key,
            decreases high - low,
        {
            let middle: usize = low + (high - low) / 2;
            assert(self@[middle as int].0 == self.keys@[middle as int]);
            if self.keys[middle] < key {
                low = middle + 1;
            } else {
                high = middle;
            }
        }
        let found: bool = low < self.keys.len() && self.keys[low] == key;
        proof {
            if found {
                assert(self@[low as int].0 == key);
            }
        }
        (low, found)
    }

    pub fn contains_key(&self, key: u64) -> (result: bool)
        ensures
            result == has_key(self@, key),
    {
        self.find(key).1
    }

    /// The value under `key`.
    pub fn get(&self, key: u64) -> (result: Option<&V>)
        ensures
            result is None <==> !has_key(self@, key),
            result matches Some(value) ==> value_of(self@, key) == Some(*value),
    {
        proof {
            use_type_invariant(self);
        }
        let (place, found): (usize, bool) = self.find(key);
        if found {
            Some(&self.values[place])
        } else {
            None
        }
    }

    /// The key at `place`, in the order of the keys.
    pub fn key(&self, place: usize) -> (result: u64)
        requires
            place < self@.len(),
        ensures
            result == self@[place as int].0,
    {
        self.keys[place]
    }

    /// The value at `place`, in the order of the keys.
    pub fn value(&self, place: usize) -> (result: &V)
        requires
            place < self@.len(),
        ensures
            *result == self@[place as int].1,
    {
        proof {
            use_type_invariant(self);
        }
        &self.values[place]
    }

    /// The value at `place`, in the order of the keys, to be changed.
    pub fn value_mut(&mut self, place: usize) -> (result: &mut V)
        requires
            place < old(self)@.len(),
        ensures
            *result == old(self)@[place as int].1,
            final(self)@ == old(self)@.update(
                place as int,
                (old(self)@[place as int].0, *final(result)),
            ),
    {
        proof {
            use_type_invariant(&*self);
        }
        &mut self.values[place]
    }

    /// Puts `value` under `key` and gives back what was there.
    pub fn insert(&mut self, key: u64, value: V) -> (result: Option<V>)
        ensures
            final(self)@ == with_value(old(self)@, key, value),
            result == value_of(old(self)@, key),
            keys_ascend(final(self)@),
    {
        let ghost before = self@;
        let (place, found): (usize, bool) = self.find(key);
        proof {
            use_type_invariant(&*self);
            law_with_value(before, key, value, key);
            lemma_place(before, key);
        }
        let mut fresh: OrderedMap<V> = OrderedMap::new();
        std::mem::swap(&mut fresh, self);
        let OrderedMap { mut keys, mut values } = fresh;
        let result = if found {
            Some(values.remove(place))
        } else {
            keys.insert(place, key);
            None
        };
        values.insert(place, value);
        let ghost after = with_value(before, key, value);
        assert(keys@.len() == after.len() && values@.len() == after.len());
        assert forall|i: int| 0 <= i < after.len() implies keys@[i] == (#[trigger] after[i]).0
            && values@[i] == after[i].1 by {
            if i < place {
                assert(before[i].0 == keys@[i]);
            }
        }
        assert forall|i: int, j: int| 0 <= i < j < keys@.len() implies keys@[i] < keys@[j] by {
            assert(after[i].0 < after[j].0);
        }
        *self = OrderedMap { keys, values };
        assert(self@ =~= after);
        result
    }

    /// Puts `value` under a key above all others.
    pub fn push_last(&mut self, key: u64, value: V)
        requires
            old(self)@.len() > 0 ==> old(self)@.last().0 < key,
        ensures
            final(self)@ == old(self)@.push((key, value)),
    {
        let ghost before = self@;
        proof {
            use_type_invariant(&*self);
        }
        let mut fresh: OrderedMap<V> = OrderedMap::new();
        std::mem::swap(&mut fresh, self);
        let OrderedMap { mut keys, mut values } = fresh;
        assert forall|i: int| 0 <= i < keys@.len() implies keys@[i] < key by {
            assert(before.last().0 == keys@[keys@.len() - 1]);
        }
        keys.push(key);
        values.push(value);
        *self = OrderedMap { keys, values };
        assert(self@ =~= before.push((key, value)));
    }

    /// Takes out the first entry.
    pub fn pop_first(&mut self) -> (result: Option<(u64, V)>)
        ensures
            old(self)@.len() == 0 ==> result is None && final(self)@ == old(self)@,
            old(self)@.len() > 0 ==> result == Some(old(self)@[0]) && final(self)@ == old(
                self,
            )@.skip(1),
            keys_ascend(old(self)@),
    {
        let ghost before = self@;
        proof {
            use_type_invariant(&*self);
        }
        if self.keys.len() == 0 {
            return None;
        }
        let mut fresh: OrderedMap<V> = OrderedMap::new();
        std::mem::swap(&mut fresh, self);
        let OrderedMap { mut keys, mut values } = fresh;
        let key: u64 = keys.remove(0);
        let value = values.remove(0);
        *self = OrderedMap { keys, values };
        assert(self@ =~= before.skip(1));
        Some((key, value))
    }

    /// Takes out the value under `key`.
    pub fn remove(&mut self, key: u64) -> (result: Option<V>)
        ensures
            final(self)@ == without_key(old(self)@, key),
            result == value_of(old(self)@, key),
            keys_ascend(final(self)@),
    {
        let ghost before = self@;
        let (place, found): (usize, bool) = self.find(key);
        proof {
            use_type_invariant(&*self);
            law_without_key(before, key, key);
        }
        if found {
            let mut fresh: OrderedMap<V> = OrderedMap::new();
            std::mem::swap(&mut fresh, self);
            let OrderedMap { mut keys, mut values } = fresh;
            keys.remove(place);
            let value = values.remove(place);
            *self = OrderedMap { keys, values };
            assert(self@ =~= without_key(before, key));
            Some(value)
        } else {
            None
        }
    }
}

impl<V> Default for OrderedMap<V> {
    fn default() -> (result: Self)
        ensures
            result@ == Seq::<(u64, V)>::empty(),
    {
        OrderedMap::new()
    }
}

/// What stands under a key is what its entry holds, and there is something exactly if there is
/// such an entry.
pub proof fn law_value_of_entry<V>(entries: Seq<(u64, V)>, key: u64, place: int)
    requires
        keys_ascend(entries),
    ensures
        0 <= place < entries.len() ==> value_of(entries, entries[place].0) == Some(
            entries[place].1,
        ),
        value_of(entries, key) is Some <==> exists|i: int|
            0 <= i < entries.len() && (#[trigger] entries[i]).0 == key,
        value_of(entries, key) matches Some(value) ==> entries.contains((key, value)),
        has_key(entries, key) <==> value_of(entries, key) is Some,
{
    if 0 <= place < entries.len() {
        lemma_only_place(entries, entries[place].0, place);
    }
    lemma_place(entries, key);
    if has_key(entries, key) {
        assert(entries[place_of(entries, key)] == (key, value_of(entries, key)->0));
    }
}

/// Putting a value under a key adds an entry only if there was none, and taking a key out takes
/// one entry only if there was one.
pub proof fn law_number_of_entries<V>(entries: Seq<(u64, V)>, key: u64, value: V)
    requires
        keys_ascend(entries),
    ensures
        with_value(entries, key, value).len() == if has_key(entries, key) {
            entries.len()
        } else {
            entries.len() + 1
        },
        without_key(entries, key).len() == if has_key(entries, key) {
            entries.len() - 1
        } else {
            entries.len() as int
        },
        !has_key(entries, key) ==> without_key(entries, key) == entries,
{
    lemma_place(entries, key);
}

} // verus!
