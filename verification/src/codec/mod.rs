//! Messages as bytes.

pub mod block;
pub mod containers;
pub mod maps;
pub mod primitives;
pub mod replicable;
pub mod string;
pub mod tuples;

use std::marker::PhantomData;
use vstd::prelude::*;

use crate::buffer::Buffer;
use crate::error::Error;
use crate::wire::{failure, Emitted, Parsed};

verus! {

/// A way to turn values of one type into bytes and back.
pub trait Codec: Sized {
    /// What is written and read.
    type Value;

    /// What matters of a value.
    type Model;

    /// What matters of `value`.
    spec fn model(value: Self::Value) -> Self::Model;

    /// What writing `value` comes to.
    spec fn emit(value: Self::Value) -> Emitted;

    /// What reading from `bytes` comes to.
    spec fn parse(bytes: Seq<u8>) -> Parsed<Self::Model>;

    /// Reading takes no more bytes than there are.
    proof fn parse_is_within(bytes: Seq<u8>)
        ensures
            Self::parse(bytes).consumed <= bytes.len(),
    ;

    /// Writes `message` at the cursor.
    fn encode(message: &Self::Value, buffer: &mut Buffer) -> (result: Result<(), Error>)
        ensures
            final(buffer)@ == old(buffer)@.written(Self::emit(*message).bytes),
            failure(result) == Self::emit(*message).error,
    ;

    /// Reads a message from the cursor on.
    fn decode(buffer: &mut Buffer) -> (result: Result<Self::Value, Error>)
        ensures
            final(buffer)@ == old(buffer)@.advanced(Self::parse(old(buffer)@.rest).consumed),
            match result {
                Ok(value) => Self::parse(old(buffer)@.rest).result == Ok::<Self::Model, Error>(
                    Self::model(value),
                ),
                Err(error) => Self::parse(old(buffer)@.rest).result == Err::<Self::Model, Error>(
                    error,
                ),
            },
    ;
}

/// A codec that reads back what it wrote.
pub trait LosslessCodec: Codec {
    /// Whether all lengths in `value` fit in 64 bits.
    spec fn fits(value: Self::Value) -> bool;

    /// Reading gives back the value that was written, and takes exactly its bytes.
    proof fn law_round_trip(value: Self::Value, tail: Seq<u8>)
        requires
            Self::fits(value),
            Self::emit(value).error is None,
        ensures
            Self::parse(Self::emit(value).bytes + tail) == (Parsed {
                result: Ok::<Self::Model, Error>(Self::model(value)),
                consumed: Self::emit(value).bytes.len(),
            }),
    ;
}

impl<T> Codec for PhantomData<T> {
    type Value = PhantomData<T>;

    type Model = ();

    open spec fn model(value: PhantomData<T>) -> () {
        ()
    }

    open spec fn emit(value: PhantomData<T>) -> Emitted {
        Emitted::nothing()
    }

    open spec fn parse(bytes: Seq<u8>) -> Parsed<()> {
        Parsed { result: Ok(()), consumed: 0 }
    }

    proof fn parse_is_within(bytes: Seq<u8>) {
    }

    fn encode(message: &PhantomData<T>, buffer: &mut Buffer) -> (result: Result<(), Error>) {
        proof {
            buffer@.lemma_written_nothing();
        }
        Ok(())
    }

    fn decode(buffer: &mut Buffer) -> (result: Result<PhantomData<T>, Error>) {
        proof {
            buffer@.lemma_advanced_nothing();
        }
        Ok(PhantomData)
    }
}

impl<T> LosslessCodec for PhantomData<T> {
    open spec fn fits(value: PhantomData<T>) -> bool {
        true
    }

    proof fn law_round_trip(value: PhantomData<T>, tail: Seq<u8>) {
    }
}

impl Codec for () {
    type Value = ();

    type Model = ();

    open spec fn model(value: ()) -> () {
        ()
    }

    open spec fn emit(value: ()) -> Emitted {
        Emitted::nothing()
    }

    open spec fn parse(bytes: Seq<u8>) -> Parsed<()> {
        Parsed { result: Ok(()), consumed: 0 }
    }

    proof fn parse_is_within(bytes: Seq<u8>) {
    }

    fn encode(message: &(), buffer: &mut Buffer) -> (result: Result<(), Error>) {
        proof {
            buffer@.lemma_written_nothing();
        }
        Ok(())
    }

    fn decode(buffer: &mut Buffer) -> (result: Result<(), Error>) {
        proof {
            buffer@.lemma_advanced_nothing();
        }
        Ok(())
    }
}

impl LosslessCodec for () {
    open spec fn fits(value: ()) -> bool {
        true
    }

    proof fn law_round_trip(value: (), tail: Seq<u8>) {
    }
}

} // verus!
