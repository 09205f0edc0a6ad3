//! A codec for replicable values.

use std::marker::PhantomData;
use vstd::prelude::*;

use crate::buffer::Buffer;
use crate::codec::{Codec, LosslessCodec};
use crate::error::Error;
use crate::replication::{DefaultReplicable, LosslessReplicable};
use crate::wire::{Emitted, Parsed};

verus! {

/// Writes a value by its own replication, and reads it into a blank one.
pub struct RepCodec<T>(PhantomData<T>);

impl<T: DefaultReplicable> Codec for RepCodec<T> {
    type Value = T;

    type Model = T::Model;

    open spec fn model(value: T) -> T::Model {
        value.model()
    }

    open spec fn emit(value: T) -> Emitted {
        value.emit()
    }

    open spec fn parse(bytes: Seq<u8>) -> Parsed<T::Model> {
        let applied = T::parse(T::blank(), bytes);
        Parsed {
            result: match applied.error {
                None => Ok(applied.model),
                Some(error) => Err(error),
            },
            consumed: applied.consumed,
        }
    }

    proof fn parse_is_within(bytes: Seq<u8>) {
        T::parse_is_within(T::blank(), bytes);
    }

    fn encode(message: &T, buffer: &mut Buffer) -> (result: Result<(), Error>) {
        message.collect_changes(buffer)
    }

    fn decode(buffer: &mut Buffer) -> (result: Result<T, Error>) {
        let mut message = T::default();
        proof {
            T::default_is_blank(message);
        }
        match message.apply_changes(buffer) {
            Ok(_) => Ok(message),
            Err(error) => Err(error),
        }
    }
}

impl<T: DefaultReplicable + LosslessReplicable> LosslessCodec for RepCodec<T> {
    open spec fn fits(value: T) -> bool {
        value.fits()
    }

    proof fn law_round_trip(value: T, tail: Seq<u8>) {
        value.law_round_trip(T::blank(), tail);
    }
}

/// What a value is written as does not depend on the way: its own replication and its codec give
/// the same bytes. Reading forgets what was there before, for it starts from a blank value.
pub proof fn law_written_as_it_replicates<T: DefaultReplicable>(value: T, bytes: Seq<u8>)
    ensures
        RepCodec::<T>::emit(value).bytes == value.emit().bytes,
        RepCodec::<T>::emit(value).error == value.emit().error,
        RepCodec::<T>::parse(bytes).result is Ok <==> T::parse(T::blank(), bytes).error is None,
        RepCodec::<T>::parse(bytes).result is Ok ==> RepCodec::<T>::parse(bytes).result->Ok_0
            == T::parse(T::blank(), bytes).model,
        RepCodec::<T>::parse(bytes).consumed == T::parse(T::blank(), bytes).consumed,
{
}

} // verus!
