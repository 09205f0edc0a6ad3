//! Data that a program keeps with its peers.

use std::sync::Arc;
use vstd::prelude::*;

use crate::error::Error;
use crate::ordered_map::{has_key, keys_ascend, value_of, with_value, OrderedMap};
use crate::replication::containers::arc_get_mut;

verus! {

/// At most one piece of data of each type, shared by all peers that a factory makes. Types are
/// told apart by numbers.
pub struct PeerUserData<D> {
    items: Arc<OrderedMap<D>>,
}

impl<D> View for PeerUserData<D> {
    type V = Seq<(u64, D)>;

    closed spec fn view(&self) -> Seq<(u64, D)> {
        (*self.items)@
    }
}

/// `Arc::strong_count`: how many share the value at some moment. Nothing is claimed of it.
#[verifier::external_body]
fn count_sharers<T>(shared: &Arc<T>) -> (result: usize) {
    Arc::strong_count(shared)
}

/// Adds a piece of data to what is held alone, in place of one of the same type. What is shared
/// is frozen.
pub fn put<D>(own: Option<&mut OrderedMap<D>>, data_type: u64, data: D) -> (result: Result<
    (),
    Error,
>)
    ensures
        match own {
            Some(items) => result is Ok && final(items)@ == with_value(items@, data_type, data),
            None => result == Err::<(), Error>(Error::Frozen),
        },
{
    match own {
        Some(items) => {
            items.insert(data_type, data);
            Ok(())
        },
        None => Err(Error::Frozen),
    }
}

impl<D> PeerUserData<D> {
    /// No data.
    pub fn new() -> (result: Self)
        ensures
            result@ == Seq::<(u64, D)>::empty(),
    {
        PeerUserData { items: Arc::new(OrderedMap::new()) }
    }

    /// One piece of data.
    pub fn holding(data_type: u64, data: D) -> (result: Self)
        ensures
            result@ == with_value(Seq::<(u64, D)>::empty(), data_type, data),
            keys_ascend(result@),
    {
        let mut items: OrderedMap<D> = OrderedMap::new();
        items.insert(data_type, data);
        PeerUserData { items: Arc::new(items) }
    }

    /// Whether counting who shares the data can give `count`.
    pub closed spec fn shared_by(self, count: usize) -> bool {
        call_ensures(count_sharers::<OrderedMap<D>>, (&self.items,), count)
    }

    /// Whether asking if nobody else shares the data can give `alone`.
    pub closed spec fn alone(self, alone: bool) -> bool {
        exists|at: &mut Arc<OrderedMap<D>>, got: Option<&mut OrderedMap<D>>|
            *at == self.items && #[trigger] call_ensures(
                arc_get_mut::<OrderedMap<D>>,
                (at,),
                got,
            ) && alone == (got is Some)
    }

    /// Whether others share the data, so that it cannot be changed. Who else holds it, only a
    /// count at the moment of asking tells.
    pub fn is_frozen(&self) -> (result: bool)
        ensures
            exists|count: usize| #[trigger] self.shared_by(count) && result == (count > 1),
    {
        let count: usize = count_sharers(&self.items);
        assert(self.shared_by(count));
        count > 1
    }

    /// Adds a piece of data, in place of one of the same type. Fails if others share the data.
    pub fn with(self, data_type: u64, data: D) -> (result: Result<Self, Error>)
        ensures
            exists|alone: bool| #[trigger]
                self.alone(alone) && match result {
                    Ok(after) => alone && after@ == with_value(self@, data_type, data),
                    Err(error) => !alone && error == Error::Frozen,
                },
            keys_ascend(self@),
    {
        let _ = self.items.len();
        let PeerUserData { mut items } = self;
        let own = arc_get_mut(&mut items);
        assert(self.alone(own is Some));
        match put(own, data_type, data) {
            Ok(_) => Ok(PeerUserData { items }),
            Err(error) => Err(error),
        }
    }

    /// The piece of data of a type.
    pub fn access(&self, data_type: u64) -> (result: Result<&D, Error>)
        ensures
            match result {
                Ok(data) => value_of(self@, data_type) == Some(*data),
                Err(error) => !has_key(self@, data_type) && error == Error::NoUserData(
                    data_type,
                ),
            },
            keys_ascend(self@),
    {
        let _ = self.items.len();
        match self.items.get(data_type) {
            Some(data) => Ok(data),
            None => Err(Error::NoUserData(data_type)),
        }
    }
}

impl<D> Clone for PeerUserData<D> {
    /// The same data, now shared.
    fn clone(&self) -> (result: Self)
        ensures
            result@ == self@,
            keys_ascend(result@),
    {
        let _ = self.items.len();
        PeerUserData { items: self.items.clone() }
    }
}

impl<D> Default for PeerUserData<D> {
    fn default() -> (result: Self)
        ensures
            result@ == Seq::<(u64, D)>::empty(),
    {
        PeerUserData::new()
    }
}

} // verus!
