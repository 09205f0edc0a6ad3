//! Keys that are held down.

use vstd::prelude::*;

use crate::ordered_map::{
    keys_ascend, law_with_value, lemma_place, lemma_same_keys, value_of, with_value, OrderedMap,
};

verus! {

/// Whether a key is down, and whether it was.
#[derive(Debug, Clone, Copy, PartialEq, Eq, Structural)]
pub struct KeyState {
    pub is_down: bool,
    pub was_down: bool,
}

impl KeyState {
    pub fn is_down(&self) -> (result: bool)
        ensures
            result == self.is_down,
    {
        self.is_down
    }

    pub fn is_up(&self) -> (result: bool)
        ensures
            result == !self.is_down,
    {
        !self.is_down
    }

    pub fn just_pressed(&self) -> (result: bool)
        ensures
            result == (self.is_down && !self.was_down),
    {
        self.is_down && !self.was_down
    }

    pub fn just_released(&self) -> (result: bool)
        ensures
            result == (!self.is_down && self.was_down),
    {
        !self.is_down && self.was_down
    }
}

impl Default for KeyState {
    fn default() -> (result: Self)
        ensures
            result == (KeyState { is_down: false, was_down: false }),
    {
        KeyState { is_down: false, was_down: false }
    }
}

/// What happens to a key.
#[derive(Debug, Clone, Copy, PartialEq, Eq, Structural)]
pub enum KeyEventKind {
    Press,
    Repeat,
    Release,
}

/// Something happens to a key.
#[derive(Debug, Clone, Copy, PartialEq, Eq, Structural)]
pub struct KeyEvent {
    /// Which key.
    pub code: u64,
    pub kind: KeyEventKind,
}

/// Whether something of some kind, or of any, happens to a key.
pub open spec fn concerns(event: KeyEvent, code: u64, kind: Option<KeyEventKind>) -> bool {
    event.code == code && (kind matches Some(wanted) ==> event.kind == wanted)
}

/// Whether something of some kind, or of any, happens to a key.
pub fn is_key(events: &[KeyEvent], code: u64, kind: Option<KeyEventKind>) -> (result: bool)
    ensures
        result == exists|i: int|
            0 <= i < events@.len() && concerns(#[trigger] events@[i], code, kind),
{
    let mut i: usize = 0;
    while i < events.len()
        invariant
            i <= events@.len(),
            forall|k: int| 0 <= k < i ==> !concerns(#[trigger] events@[k], code, kind),
        decreases events@.len() - i,
    {
        let event: KeyEvent = events[i];
        let matches: bool = match kind {
            Some(wanted) => event.kind == wanted,
            None => true,
        };
        if event.code == code && matches {
            assert(concerns(events@[i as int], code, kind));
            return true;
        }
        i = i + 1;
    }
    false
}

/// Keys that were down become keys that are down.
pub open spec fn aged(keys: Seq<(u64, KeyState)>) -> Seq<(u64, KeyState)> {
    Seq::new(
        keys.len(),
        |i: int| (keys[i].0, KeyState { was_down: keys[i].1.is_down, ..keys[i].1 }),
    )
}

/// Keys once something happened to one.
pub open spec fn after_key(keys: Seq<(u64, KeyState)>, event: KeyEvent) -> Seq<(u64, KeyState)> {
    let is_down = !(event.kind is Release);
    with_value(
        keys,
        event.code,
        match value_of(keys, event.code) {
            Some(state) => KeyState { is_down, ..state },
            None => KeyState { is_down, was_down: false },
        },
    )
}

/// Keys once something happened to some.
pub open spec fn after_keys(keys: Seq<(u64, KeyState)>, events: Seq<KeyEvent>) -> Seq<
    (u64, KeyState),
>
    decreases events.len(),
{
    if events.len() == 0 {
        keys
    } else {
        after_key(after_keys(keys, events.drop_last()), events.last())
    }
}

/// The keys that something happened to.
pub struct Keys {
    cache: OrderedMap<KeyState>,
}

impl View for Keys {
    type V = Seq<(u64, KeyState)>;

    closed spec fn view(&self) -> Seq<(u64, KeyState)> {
        self.cache@
    }
}

impl Keys {
    /// Nothing happened to any key.
    pub fn new() -> (result: Self)
        ensures
            result@ == Seq::<(u64, KeyState)>::empty(),
    {
        Keys { cache: OrderedMap::new() }
    }

    /// Takes note of what happened since the last time.
    pub fn update(&mut self, events: &[KeyEvent])
        ensures
            final(self)@ == after_keys(aged(old(self)@), events@),
    {
        let ghost before = self@;
        let total: usize = self.cache.len();
        let mut i: usize = 0;
        while i < total
            invariant
                before == old(self)@,
                i <= total,
                total == before.len(),
                total == self.cache@.len(),
                forall|k: int|
                    #![trigger self.cache@[k]]
                    #![trigger before[k]]
                    0 <= k < i ==> self.cache@[k] == aged(before)[k],
                forall|k: int|
                    #![trigger self.cache@[k]]
                    #![trigger before[k]]
                    i <= k < total ==> self.cache@[k] == before[k],
            decreases total - i,
        {
            let state = self.cache.value_mut(i);
            state.was_down = state.is_down;
            i = i + 1;
        }
        assert(self@ =~= aged(before));
        let ghost start = self@;
        let mut n: usize = 0;
        assert(events@.take(0) =~= Seq::<KeyEvent>::empty());
        while n < events.len()
            invariant
                n <= events@.len(),
                self@ == after_keys(start, events@.take(n as int)),
            decreases events@.len() - n,
        {
            let event: KeyEvent = events[n];
            assert(events@.take(n + 1).drop_last() =~= events@.take(n as int));
            let is_down: bool = match event.kind {
                KeyEventKind::Release => false,
                _ => true,
            };
            let state: KeyState = match self.cache.get(event.code) {
                Some(state) => KeyState { is_down, was_down: state.was_down },
                None => KeyState { is_down, was_down: false },
            };
            self.cache.insert(event.code, state);
            n = n + 1;
        }
        assert(events@.take(n as int) =~= events@);
    }

    /// The state of a key.
    pub fn get(&self, code: u64) -> (result: KeyState)
        ensures
            result == (match value_of(self@, code) {
                Some(state) => state,
                None => KeyState { is_down: false, was_down: false },
            }),
    {
        match self.cache.get(code) {
            Some(state) => *state,
            None => KeyState { is_down: false, was_down: false },
        }
    }
}

impl Default for Keys {
    fn default() -> (result: Self)
        ensures
            result@ == Seq::<(u64, KeyState)>::empty(),
    {
        Keys::new()
    }
}

/// A key was down before a round if it was down in the last one, and is down after it as the last
/// event of the round that concerns it says: down unless it was released. Without such an event
/// it is as it was, and events of other keys do not matter.
pub proof fn law_keys_follow_their_events(
    keys: Seq<(u64, KeyState)>,
    events: Seq<KeyEvent>,
    code: u64,
    place: int,
)
    requires
        keys_ascend(keys),
    ensures
        ({
            let before = value_of(keys, code);
            let after = value_of(after_keys(aged(keys), events), code);
            let concerned = exists|i: int|
                0 <= i < events.len() && (#[trigger] events[i]).code == code;
            &&& after is Some <==> before is Some || concerned
            &&& after is Some ==> after->0.was_down == (before is Some && before->0.is_down)
            &&& !concerned && after is Some ==> after->0.is_down == before->0.is_down
            &&& (0 <= place < events.len() && events[place].code == code && forall|i: int|
                place < i < events.len() ==> (#[trigger] events[i]).code != code)
                ==> after->0.is_down == !(events[place].kind is Release)
            &&& keys_ascend(after_keys(aged(keys), events))
        }),
    decreases events.len(),
{
    let old_keys = aged(keys);
    assert(keys_ascend(old_keys));
    lemma_same_keys(keys, old_keys, code);
    lemma_place(keys, code);
    lemma_place(old_keys, code);
    if events.len() > 0 {
        let rest = events.drop_last();
        let last = events.last();
        let before = after_keys(old_keys, rest);
        law_keys_follow_their_events(keys, rest, code, place);
        law_keys_follow_their_events(keys, rest, last.code, place);
        let state = match value_of(before, last.code) {
            Some(state) => KeyState { is_down: !(last.kind is Release), ..state },
            None => KeyState { is_down: !(last.kind is Release), was_down: false },
        };
        law_with_value(before, last.code, state, code);
        law_with_value(before, last.code, state, last.code);
        assert(events[events.len() - 1] == last);
        if exists|i: int| 0 <= i < rest.len() && (#[trigger] rest[i]).code == code {
            let i = choose|i: int| 0 <= i < rest.len() && (#[trigger] rest[i]).code == code;
            assert(events[i].code == code);
        }
        if exists|i: int| 0 <= i < events.len() && (#[trigger] events[i]).code == code {
            let i = choose|i: int| 0 <= i < events.len() && (#[trigger] events[i]).code == code;
            if i < rest.len() {
                assert(rest[i].code == code);
            }
        }
        if 0 <= place < rest.len() {
            assert(rest[place] == events[place]);
            assert forall|i: int| place < i < rest.len() implies rest[i] == #[trigger] events[i] by {}
        }
    }
}

/// An event concerns a key by its code, and by its kind if one is asked for.
pub proof fn law_concerned_keys(event: KeyEvent, code: u64, kind: KeyEventKind)
    ensures
        concerns(event, code, None) <==> event.code == code,
        concerns(event, code, Some(kind)) <==> event.code == code && event.kind == kind,
{
}

} // verus!
