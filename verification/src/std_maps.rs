//! Maps of the standard library by number, and what they come to in order of their keys.

use std::collections::hash_map::HashMap;
use std::collections::BTreeMap;
use vstd::prelude::*;
use vstd::std_specs::btree::spec_btree_map_iter;
use vstd::std_specs::cmp::OrdSpec;
use vstd::std_specs::iter::IteratorSpec;

use crate::ordered_map::{
    has_key, keys_ascend, law_with_value, lemma_only_place, value_of, with_value, OrderedMap,
};

verus! {

broadcast use {
    vstd::std_specs::btree::group_btree_axioms,
    vstd::std_specs::hash::group_hash_axioms,
    vstd::laws_cmp::group_laws_cmp,
};

/// Whether entries and a map have the same keys, with the same values.
pub open spec fn lists<V>(entries: Seq<(u64, V)>, map: Map<u64, V>) -> bool {
    forall|key: u64|
        {
            &&& (#[trigger] map.contains_key(key) <==> has_key(entries, key))
            &&& (map.contains_key(key) ==> value_of(entries, key) == Some(map[key]))
        }
}

/// The entries of a map in order of their keys.
pub open spec fn listing<V>(map: Map<u64, V>) -> Seq<(u64, V)> {
    choose|entries: Seq<(u64, V)>| keys_ascend(entries) && #[trigger] lists(entries, map)
}

/// Entries of a map are those before the last, and the last.
proof fn lemma_lists_but_last<V>(entries: Seq<(u64, V)>, map: Map<u64, V>)
    requires
        keys_ascend(entries),
        lists(entries, map),
        entries.len() > 0,
    ensures
        map.contains_key(entries.last().0),
        map[entries.last().0] == entries.last().1,
        lists(entries.drop_last(), map.remove(entries.last().0)),
{
    let earlier = entries.drop_last();
    let last = entries.last().0;
    let less = map.remove(last);
    lemma_only_place(entries, last, entries.len() - 1);
    assert(map.contains_key(last));
    assert forall|key: u64|
        {
            &&& (#[trigger] less.contains_key(key) <==> has_key(earlier, key))
            &&& (less.contains_key(key) ==> value_of(earlier, key) == Some(less[key]))
        } by {
        if has_key(earlier, key) {
            let i = choose|i: int| 0 <= i < earlier.len() && (#[trigger] earlier[i]).0 == key;
            lemma_only_place(earlier, key, i);
            lemma_only_place(entries, key, i);
            assert(map.contains_key(key));
        }
        if less.contains_key(key) {
            assert(map.contains_key(key));
            let i = choose|i: int| 0 <= i < entries.len() && (#[trigger] entries[i]).0 == key;
            assert(earlier[i].0 == key);
        }
    }
}

/// A map has its entries in one order only.
pub proof fn law_one_listing<V>(a: Seq<(u64, V)>, b: Seq<(u64, V)>, map: Map<u64, V>)
    requires
        keys_ascend(a),
        keys_ascend(b),
        lists(a, map),
        lists(b, map),
    ensures
        a == b,
        listing(map) == a,
{
    lemma_same_listing(a, b, map);
    lemma_same_listing(listing(map), a, map);
}

proof fn lemma_same_listing<V>(a: Seq<(u64, V)>, b: Seq<(u64, V)>, map: Map<u64, V>)
    requires
        keys_ascend(a),
        keys_ascend(b),
        lists(a, map),
        lists(b, map),
    ensures
        a == b,
    decreases a.len(),
{
    if a.len() == 0 {
        if b.len() > 0 {
            lemma_lists_but_last(b, map);
        }
        assert(a =~= b);
    } else {
        lemma_lists_but_last(a, map);
        assert(has_key(b, a.last().0));
        let i = choose|i: int| 0 <= i < b.len() && (#[trigger] b[i]).0 == a.last().0;
        lemma_lists_but_last(b, map);
        assert(has_key(a, b.last().0));
        let j = choose|j: int| 0 <= j < a.len() && (#[trigger] a[j]).0 == b.last().0;
        assert(a.last().0 == b.last().0);
        lemma_same_listing(a.drop_last(), b.drop_last(), map.remove(a.last().0));
        assert(a =~= a.drop_last().push(a.last()));
        assert(b =~= b.drop_last().push(b.last()));
    }
}

/// Maps with the same entries are the same.
pub proof fn law_same_entries_same_map<V>(entries: Seq<(u64, V)>, a: Map<u64, V>, b: Map<u64, V>)
    requires
        lists(entries, a),
        lists(entries, b),
    ensures
        a == b,
{
    assert forall|key: u64| a.contains_key(key) == b.contains_key(key) && (a.contains_key(key)
        ==> a[key] == b[key]) by {
        assert(a.contains_key(key) <==> has_key(entries, key));
        assert(b.contains_key(key) <==> has_key(entries, key));
    }
    assert(a =~= b);
}

/// The entries of a map in order of their keys, to be looked at.
pub fn by_key<V>(map: &BTreeMap<u64, V>) -> (result: Vec<(u64, &V)>)
    ensures
        result@.len() == listing(map@).len(),
        forall|i: int|
            0 <= i < result@.len() ==> (#[trigger] result@[i]).0 == listing(map@)[i].0
                && *result@[i].1 == listing(map@)[i].1,
        keys_ascend(listing(map@)),
        lists(listing(map@), map@),
{
    let mut result: Vec<(u64, &V)> = Vec::new();
    for pair in all: map.iter()
        invariant
            all.seq() == spec_btree_map_iter(map).remaining(),
            result@.len() == all.index(),
            forall|i: int|
                0 <= i < result@.len() ==> (#[trigger] result@[i]).0 == *all.seq()[i].0
                    && *result@[i].1 == *all.seq()[i].1,
    {
        result.push((*pair.0, pair.1));
    }
    let ghost entries = Seq::new(result@.len(), |i: int| (result@[i].0, *result@[i].1));
    assert(result@.len() == spec_btree_map_iter(map).remaining().len());
    assert(keys_ascend(entries)) by {
        assert forall|i: int, j: int| 0 <= i < j < entries.len() implies entries[i].0
            < entries[j].0 by {
            let keys = spec_btree_map_iter(map).remaining().map_values(
                |pair: (&u64, &V)| *pair.0,
            );
            assert(keys[i].cmp_spec(&keys[j]) is Less);
        }
    }
    assert(lists(entries, map@)) by {
        assert forall|key: u64|
            {
                &&& (#[trigger] map@.contains_key(key) <==> has_key(entries, key))
                &&& (map@.contains_key(key) ==> value_of(entries, key) == Some(map@[key]))
            } by {
            let pairs = spec_btree_map_iter(map).remaining();
            if map@.contains_key(key) {
                assert(pairs.contains((&key, &map@[key])));
                let i = choose|i: int| 0 <= i < pairs.len() && pairs[i] == (&key, &map@[key]);
                assert(entries[i].0 == key);
                lemma_only_place(entries, key, i);
            }
            if has_key(entries, key) {
                let i = choose|i: int| 0 <= i < entries.len() && (#[trigger] entries[i]).0 == key;
                assert(map@.contains_key(*pairs[i].0));
            }
        }
    }
    proof {
        law_one_listing(entries, entries, map@);
    }
    result
}

/// Whether every entry of a map is either still there or among the `entries` taken out of it.
spec fn shared<V>(start: Map<u64, V>, left: Map<u64, V>, entries: Seq<(u64, V)>) -> bool {
    &&& keys_ascend(entries)
    &&& forall|key: u64|
        #![trigger left.contains_key(key)]
        #![trigger has_key(entries, key)]
        {
            &&& left.contains_key(key) ==> start.contains_key(key) && left[key] == start[key]
                && !has_key(entries, key)
            &&& has_key(entries, key) ==> start.contains_key(key) && value_of(entries, key)
                == Some(start[key])
        }
    &&& forall|key: u64| #[trigger]
        start.contains_key(key) ==> left.contains_key(key) || has_key(entries, key)
}

/// One more entry is taken out.
proof fn lemma_shared<V>(
    start: Map<u64, V>,
    left: Map<u64, V>,
    entries: Seq<(u64, V)>,
    key: u64,
)
    requires
        shared(start, left, entries),
        left.contains_key(key),
    ensures
        shared(
            start,
            left.remove(key),
            with_value(entries, key, left[key]),
        ),
{
    let after = with_value(entries, key, left[key]);
    assert forall|other: u64| other != key implies has_key(after, other) == has_key(entries, other)
        && value_of(after, other) == value_of(entries, other) by {
        law_with_value(entries, key, left[key], other);
    }
    law_with_value(entries, key, left[key], key);
}

/// The entries of a map in order of their keys.
pub fn from_btree_map<V>(map: BTreeMap<u64, V>) -> (result: OrderedMap<V>)
    ensures
        lists(result@, map@),
        keys_ascend(result@),
{
    let mut map = map;
    let ghost start = map@;
    let mut keys: Vec<u64> = Vec::new();
    for key in all: map.keys()
        invariant
            map@ == start,
            all.seq().unref().to_set() == start.dom(),
            keys@.len() == all.index(),
            forall|i: int| 0 <= i < keys@.len() ==> keys@[i] == *all.seq()[i],
            all.index() == all.seq().len() ==> keys@ =~= all.seq().unref(),
    {
        keys.push(*key);
        assert(keys@.len() == all.seq().len() ==> keys@ =~= all.seq().unref());
    }
    assert forall|key: u64| #[trigger] start.contains_key(key) implies keys@.contains(key) by {
        assert(keys@.to_set().contains(key));
    }
    let mut result: OrderedMap<V> = OrderedMap::new();
    let mut i: usize = 0;
    while i < keys.len()
        invariant
            i <= keys@.len(),
            shared(start, map@, result@),
            forall|j: int| 0 <= j < i ==> !map@.contains_key(#[trigger] keys@[j]),
            forall|key: u64| #[trigger] start.contains_key(key) ==> keys@.contains(key),
        decreases keys@.len() - i,
    {
        let key: u64 = keys[i];
        let ghost before = map@;
        let ghost earlier = result@;
        if let Some(value) = map.remove(&key) {
            proof {
                lemma_shared(start, before, earlier, key);
            }
            result.insert(key, value);
        }
        i = i + 1;
    }
    result
}

/// The entries of a map in order of their keys, whatever order it keeps them in.
pub fn from_hash_map<V>(map: HashMap<u64, V>) -> (result: OrderedMap<V>)
    ensures
        lists(result@, map@),
        keys_ascend(result@),
{
    let mut map = map;
    let ghost start = map@;
    let mut keys: Vec<u64> = Vec::new();
    for key in all: map.keys()
        invariant
            map@ == start,
            all.seq().unref().to_set() == start.dom(),
            keys@.len() == all.index(),
            forall|i: int| 0 <= i < keys@.len() ==> keys@[i] == *all.seq()[i],
            all.index() == all.seq().len() ==> keys@ =~= all.seq().unref(),
    {
        keys.push(*key);
        assert(keys@.len() == all.seq().len() ==> keys@ =~= all.seq().unref());
    }
    assert forall|key: u64| #[trigger] start.contains_key(key) implies keys@.contains(key) by {
        assert(keys@.to_set().contains(key));
    }
    let mut result: OrderedMap<V> = OrderedMap::new();
    let mut i: usize = 0;
    while i < keys.len()
        invariant
            i <= keys@.len(),
            shared(start, map@, result@),
            forall|j: int| 0 <= j < i ==> !map@.contains_key(#[trigger] keys@[j]),
            forall|key: u64| #[trigger] start.contains_key(key) ==> keys@.contains(key),
        decreases keys@.len() - i,
    {
        let key: u64 = keys[i];
        let ghost before = map@;
        let ghost earlier = result@;
        if let Some(value) = map.remove(&key) {
            proof {
                lemma_shared(start, before, earlier, key);
            }
            result.insert(key, value);
        }
        i = i + 1;
    }
    result
}

/// Whether a map has exactly the first `count` of some entries.
spec fn holds_first<V>(entries: Seq<(u64, V)>, count: nat, map: Map<u64, V>) -> bool {
    &&& count <= entries.len()
    &&& forall|i: int|
        0 <= i < count ==> map.contains_key((#[trigger] entries[i]).0) && map[entries[i].0]
            == entries[i].1
    &&& forall|key: u64| #[trigger]
        map.contains_key(key) ==> exists|i: int| 0 <= i < count && (#[trigger] entries[i]).0 == key
}

proof fn lemma_holds_one_more<V>(entries: Seq<(u64, V)>, count: nat, map: Map<u64, V>)
    requires
        keys_ascend(entries),
        count < entries.len(),
        holds_first(entries, count, map),
    ensures
        holds_first(
            entries,
            count + 1,
            map.insert(entries[count as int].0, entries[count as int].1),
        ),
{
    let (key, value) = entries[count as int];
    let after = map.insert(key, value);
    assert forall|other: u64| #[trigger] after.contains_key(other) implies exists|i: int|
        0 <= i < count + 1 && (#[trigger] entries[i]).0 == other by {
        if other == key {
            assert(entries[count as int].0 == other);
        } else {
            assert(map.contains_key(other));
        }
    }
}

proof fn lemma_holds_all<V>(entries: Seq<(u64, V)>, map: Map<u64, V>)
    requires
        keys_ascend(entries),
        holds_first(entries, entries.len(), map),
    ensures
        lists(entries, map),
{
    assert forall|key: u64|
        {
            &&& (#[trigger] map.contains_key(key) <==> has_key(entries, key))
            &&& (map.contains_key(key) ==> value_of(entries, key) == Some(map[key]))
        } by {
        if has_key(entries, key) {
            let i = choose|i: int| 0 <= i < entries.len() && (#[trigger] entries[i]).0 == key;
            lemma_only_place(entries, key, i);
        }
    }
}

/// The map that has some entries.
pub fn into_btree_map<V>(entries: OrderedMap<V>) -> (result: BTreeMap<u64, V>)
    ensures
        lists(entries@, result@),
{
    let mut entries = entries;
    let _known: usize = entries.len();
    let ghost start = entries@;
    let ghost mut count: nat = 0;
    let mut result: BTreeMap<u64, V> = BTreeMap::new();
    assert(start.skip(0) =~= start);
    loop
        invariant
            keys_ascend(start),
            count <= start.len(),
            entries@ == start.skip(count as int),
            holds_first(start, count, result@),
        ensures
            holds_first(start, start.len(), result@),
        decreases start.len() - count,
    {
        match entries.pop_first() {
            None => {
                assert(count == start.len());
                break;
            },
            Some((key, value)) => {
                assert(start[count as int] == (key, value));
                let ghost before = result@;
                result.insert(key, value);
                proof {
                    assert(entries@ =~= start.skip(count as int + 1));
                    lemma_holds_one_more(start, count, before);
                    count = count + 1;
                }
            },
        }
    }
    proof {
        lemma_holds_all(start, result@);
    }
    result
}

/// The map that has some entries.
pub fn into_hash_map<V>(entries: OrderedMap<V>) -> (result: HashMap<u64, V>)
    ensures
        lists(entries@, result@),
{
    let mut entries = entries;
    let _known: usize = entries.len();
    let ghost start = entries@;
    let ghost mut count: nat = 0;
    let mut result: HashMap<u64, V> = HashMap::new();
    assert(start.skip(0) =~= start);
    loop
        invariant
            keys_ascend(start),
            count <= start.len(),
            entries@ == start.skip(count as int),
            holds_first(start, count, result@),
        ensures
            holds_first(start, start.len(), result@),
        decreases start.len() - count,
    {
        match entries.pop_first() {
            None => {
                assert(count == start.len());
                break;
            },
            Some((key, value)) => {
                assert(start[count as int] == (key, value));
                let ghost before = result@;
                result.insert(key, value);
                proof {
                    assert(entries@ =~= start.skip(count as int + 1));
                    lemma_holds_one_more(start, count, before);
                    count = count + 1;
                }
            },
        }
    }
    proof {
        lemma_holds_all(start, result@);
    }
    result
}

} // verus!
