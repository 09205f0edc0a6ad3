//! Codecs for values side by side.

use vstd::prelude::*;

use crate::buffer::Buffer;
use crate::codec::{Codec, LosslessCodec};
use crate::error::Error;
use crate::wire::{Emitted, Parsed};

verus! {

impl<A: Codec> Codec for (A,) {
    type Value = (A::Value,);

    type Model = (A::Model,);

    open spec fn model(value: (A::Value,)) -> (A::Model,) {
        (A::model(value.0),)
    }

    open spec fn emit(value: (A::Value,)) -> Emitted {
        A::emit(value.0)
    }

    open spec fn parse(bytes: Seq<u8>) -> Parsed<(A::Model,)> {
        let only = A::parse(bytes);
        Parsed {
            result: match only.result {
                Ok(item) => Ok((item,)),
                Err(error) => Err(error),
            },
            consumed: only.consumed,
        }
    }

    proof fn parse_is_within(bytes: Seq<u8>) {
        A::parse_is_within(bytes);
    }

    fn encode(message: &(A::Value,), buffer: &mut Buffer) -> (result: Result<(), Error>) {
        A::encode(&message.0, buffer)
    }

    fn decode(buffer: &mut Buffer) -> (result: Result<(A::Value,), Error>) {
        match A::decode(buffer) {
            Ok(value) => Ok((value,)),
            Err(error) => Err(error),
        }
    }
}

impl<A: LosslessCodec> LosslessCodec for (A,) {
    open spec fn fits(value: (A::Value,)) -> bool {
        A::fits(value.0)
    }

    proof fn law_round_trip(value: (A::Value,), tail: Seq<u8>) {
        A::law_round_trip(value.0, tail);
    }
}

impl<A: Codec, B: Codec> Codec for (A, B) {
    type Value = (A::Value, B::Value);

    type Model = (A::Model, B::Model);

    open spec fn model(value: (A::Value, B::Value)) -> (A::Model, B::Model) {
        (A::model(value.0), B::model(value.1))
    }

    open spec fn emit(value: (A::Value, B::Value)) -> Emitted {
        <(A,) as Codec>::emit((value.0,)).followed_by(B::emit(value.1))
    }

    open spec fn parse(bytes: Seq<u8>) -> Parsed<(A::Model, B::Model)> {
        let before = <(A,) as Codec>::parse(bytes);
        match before.result {
            Ok(items) => {
                let last = B::parse(bytes.skip(before.consumed as int));
                Parsed {
                    result: match last.result {
                        Ok(item) => Ok((items.0, item)),
                        Err(error) => Err(error),
                    },
                    consumed: before.consumed + last.consumed,
                }
            },
            Err(error) => Parsed { result: Err(error), consumed: before.consumed },
        }
    }

    proof fn parse_is_within(bytes: Seq<u8>) {
        <(A,) as Codec>::parse_is_within(bytes);
        B::parse_is_within(bytes.skip(<(A,) as Codec>::parse(bytes).consumed as int));
    }

    fn encode(message: &(A::Value, B::Value), buffer: &mut Buffer) -> (result: Result<(), Error>) {
        let ghost before = buffer@;
        match A::encode(&message.0, buffer) {
            Ok(_) => {},
            Err(error) => {
                return Err(error);
            },
        }
        proof {
            before.lemma_written_twice(<(A,) as Codec>::emit((message.0,)).bytes, B::emit(message.1).bytes);
        }
        B::encode(&message.1, buffer)
    }

    fn decode(buffer: &mut Buffer) -> (result: Result<(A::Value, B::Value), Error>) {
        let ghost before = buffer@;
        let item_0 = match A::decode(buffer) {
            Ok(item) => item,
            Err(error) => {
                return Err(error);
            },
        };
        proof {
            let done = <(A,) as Codec>::parse(before.rest);
            <(A,) as Codec>::parse_is_within(before.rest);
            before.lemma_advanced_twice(
                done.consumed,
                B::parse(before.rest.skip(done.consumed as int)).consumed,
            );
        }
        match B::decode(buffer) {
            Ok(item) => Ok((item_0, item)),
            Err(error) => Err(error),
        }
    }
}

impl<A: LosslessCodec, B: LosslessCodec> LosslessCodec for (A, B) {
    open spec fn fits(value: (A::Value, B::Value)) -> bool {
        A::fits(value.0) && B::fits(value.1)
    }

    proof fn law_round_trip(value: (A::Value, B::Value), tail: Seq<u8>) {
        let first = <(A,) as Codec>::emit((value.0,)).bytes;
        let last = B::emit(value.1).bytes;
        <(A,) as LosslessCodec>::law_round_trip((value.0,), last + tail);
        B::law_round_trip(value.1, tail);
        assert((first + last) + tail =~= first + (last + tail));
        assert((first + (last + tail)).skip(first.len() as int) =~= last + tail);
    }
}

impl<A: Codec, B: Codec, C: Codec> Codec for (A, B, C) {
    type Value = (A::Value, B::Value, C::Value);

    type Model = (A::Model, B::Model, C::Model);

    open spec fn model(value: (A::Value, B::Value, C::Value)) -> (A::Model, B::Model, C::Model) {
        (A::model(value.0), B::model(value.1), C::model(value.2))
    }

    open spec fn emit(value: (A::Value, B::Value, C::Value)) -> Emitted {
        <(A, B) as Codec>::emit((value.0, value.1)).followed_by(C::emit(value.2))
    }

    open spec fn parse(bytes: Seq<u8>) -> Parsed<(A::Model, B::Model, C::Model)> {
        let before = <(A, B) as Codec>::parse(bytes);
        match before.result {
            Ok(items) => {
                let last = C::parse(bytes.skip(before.consumed as int));
                Parsed {
                    result: match last.result {
                        Ok(item) => Ok((items.0, items.1, item)),
                        Err(error) => Err(error),
                    },
                    consumed: before.consumed + last.consumed,
                }
            },
            Err(error) => Parsed { result: Err(error), consumed: before.consumed },
        }
    }

    proof fn parse_is_within(bytes: Seq<u8>) {
        <(A, B) as Codec>::parse_is_within(bytes);
        C::parse_is_within(bytes.skip(<(A, B) as Codec>::parse(bytes).consumed as int));
    }

    fn encode(message: &(A::Value, B::Value, C::Value), buffer: &mut Buffer) -> (result: Result<(), Error>) {
        let ghost before = buffer@;
        match A::encode(&message.0, buffer) {
            Ok(_) => {},
            Err(error) => {
                return Err(error);
            },
        }
        proof {
            before.lemma_written_twice(<(A,) as Codec>::emit((message.0,)).bytes, B::emit(message.1).bytes);
        }
        match B::encode(&message.1, buffer) {
            Ok(_) => {},
            Err(error) => {
                return Err(error);
            },
        }
        proof {
            before.lemma_written_twice(<(A, B) as Codec>::emit((message.0, message.1)).bytes, C::emit(message.2).bytes);
        }
        C::encode(&message.2, buffer)
    }

    fn decode(buffer: &mut Buffer) -> (result: Result<(A::Value, B::Value, C::Value), Error>) {
        let ghost before = buffer@;
        let item_0 = match A::decode(buffer) {
            Ok(item) => item,
            Err(error) => {
                return Err(error);
            },
        };
        proof {
            let done = <(A,) as Codec>::parse(before.rest);
            <(A,) as Codec>::parse_is_within(before.rest);
            before.lemma_advanced_twice(
                done.consumed,
                B::parse(before.rest.skip(done.consumed as int)).consumed,
            );
        }
        let item_1 = match B::decode(buffer) {
            Ok(item) => item,
            Err(error) => {
                return Err(error);
            },
        };
        proof {
            let done = <(A, B) as Codec>::parse(before.rest);
            <(A, B) as Codec>::parse_is_within(before.rest);
            before.lemma_advanced_twice(
                done.consumed,
                C::parse(before.rest.skip(done.consumed as int)).consumed,
            );
        }
        match C::decode(buffer) {
            Ok(item) => Ok((item_0, item_1, item)),
            Err(error) => Err(error),
        }
    }
}

impl<A: LosslessCodec, B: LosslessCodec, C: LosslessCodec> LosslessCodec for (A, B, C) {
    open spec fn fits(value: (A::Value, B::Value, C::Value)) -> bool {
        A::fits(value.0) && B::fits(value.1) && C::fits(value.2)
    }

    proof fn law_round_trip(value: (A::Value, B::Value, C::Value), tail: Seq<u8>) {
        let first = <(A, B) as Codec>::emit((value.0, value.1)).bytes;
        let last = C::emit(value.2).bytes;
        <(A, B) as LosslessCodec>::law_round_trip((value.0, value.1), last + tail);
        C::law_round_trip(value.2, tail);
        assert((first + last) + tail =~= first + (last + tail));
        assert((first + (last + tail)).skip(first.len() as int) =~= last + tail);
    }
}

impl<A: Codec, B: Codec, C: Codec, D: Codec> Codec for (A, B, C, D) {
    type Value = (A::Value, B::Value, C::Value, D::Value);

    type Model = (A::Model, B::Model, C::Model, D::Model);

    open spec fn model(value: (A::Value, B::Value, C::Value, D::Value)) -> (A::Model, B::Model, C::Model, D::Model) {
        (A::model(value.0), B::model(value.1), C::model(value.2), D::model(value.3))
    }

    open spec fn emit(value: (A::Value, B::Value, C::Value, D::Value)) -> Emitted {
        <(A, B, C) as Codec>::emit((value.0, value.1, value.2)).followed_by(D::emit(value.3))
    }

    open spec fn parse(bytes: Seq<u8>) -> Parsed<(A::Model, B::Model, C::Model, D::Model)> {
        let before = <(A, B, C) as Codec>::parse(bytes);
        match before.result {
            Ok(items) => {
                let last = D::parse(bytes.skip(before.consumed as int));
                Parsed {
                    result: match last.result {
                        Ok(item) => Ok((items.0, items.1, items.2, item)),
                        Err(error) => Err(error),
                    },
                    consumed: before.consumed + last.consumed,
                }
            },
            Err(error) => Parsed { result: Err(error), consumed: before.consumed },
        }
    }

    proof fn parse_is_within(bytes: Seq<u8>) {
        <(A, B, C) as Codec>::parse_is_within(bytes);
        D::parse_is_within(bytes.skip(<(A, B, C) as Codec>::parse(bytes).consumed as int));
    }

    fn encode(message: &(A::Value, B::Value, C::Value, D::Value), buffer: &mut Buffer) -> (result: Result<(), Error>) {
        let ghost before = buffer@;
        match A::encode(&message.0, buffer) {
            Ok(_) => {},
            Err(error) => {
                return Err(error);
            },
        }
        proof {
            before.lemma_written_twice(<(A,) as Codec>::emit((message.0,)).bytes, B::emit(message.1).bytes);
        }
        match B::encode(&message.1, buffer) {
            Ok(_) => {},
            Err(error) => {
                return Err(error);
            },
        }
        proof {
            before.lemma_written_twice(<(A, B) as Codec>::emit((message.0, message.1)).bytes, C::emit(message.2).bytes);
        }
        match C::encode(&message.2, buffer) {
            Ok(_) => {},
            Err(error) => {
                return Err(error);
            },
        }
        proof {
            before.lemma_written_twice(<(A, B, C) as Codec>::emit((message.0, message.1, message.2)).bytes, D::emit(message.3).bytes);
        }
        D::encode(&message.3, buffer)
    }

    fn decode(buffer: &mut Buffer) -> (result: Result<(A::Value, B::Value, C::Value, D::Value), Error>) {
        let ghost before = buffer@;
        let item_0 = match A::decode(buffer) {
            Ok(item) => item,
            Err(error) => {
                return Err(error);
            },
        };
        proof {
            let done = <(A,) as Codec>::parse(before.rest);
            <(A,) as Codec>::parse_is_within(before.rest);
            before.lemma_advanced_twice(
                done.consumed,
                B::parse(before.rest.skip(done.consumed as int)).consumed,
            );
        }
        let item_1 = match B::decode(buffer) {
            Ok(item) => item,
            Err(error) => {
                return Err(error);
            },
        };
        proof {
            let done = <(A, B) as Codec>::parse(before.rest);
            <(A, B) as Codec>::parse_is_within(before.rest);
            before.lemma_advanced_twice(
                done.consumed,
                C::parse(before.rest.skip(done.consumed as int)).consumed,
            );
        }
        let item_2 = match C::decode(buffer) {
            Ok(item) => item,
            Err(error) => {
                return Err(error);
            },
        };
        proof {
            let done = <(A, B, C) as Codec>::parse(before.rest);
            <(A, B, C) as Codec>::parse_is_within(before.rest);
            before.lemma_advanced_twice(
                done.consumed,
                D::parse(before.rest.skip(done.consumed as int)).consumed,
            );
        }
        match D::decode(buffer) {
            Ok(item) => Ok((item_0, item_1, item_2, item)),
            Err(error) => Err(error),
        }
    }
}

impl<A: LosslessCodec, B: LosslessCodec, C: LosslessCodec, D: LosslessCodec> LosslessCodec for (A, B, C, D) {
    open spec fn fits(value: (A::Value, B::Value, C::Value, D::Value)) -> bool {
        A::fits(value.0) && B::fits(value.1) && C::fits(value.2) && D::fits(value.3)
    }

    proof fn law_round_trip(value: (A::Value, B::Value, C::Value, D::Value), tail: Seq<u8>) {
        let first = <(A, B, C) as Codec>::emit((value.0, value.1, value.2)).bytes;
        let last = D::emit(value.3).bytes;
        <(A, B, C) as LosslessCodec>::law_round_trip((value.0, value.1, value.2), last + tail);
        D::law_round_trip(value.3, tail);
        assert((first + last) + tail =~= first + (last + tail));
        assert((first + (last + tail)).skip(first.len() as int) =~= last + tail);
    }
}

impl<A: Codec, B: Codec, C: Codec, D: Codec, E: Codec> Codec for (A, B, C, D, E) {
    type Value = (A::Value, B::Value, C::Value, D::Value, E::Value);

    type Model = (A::Model, B::Model, C::Model, D::Model, E::Model);

    open spec fn model(value: (A::Value, B::Value, C::Value, D::Value, E::Value)) -> (A::Model, B::Model, C::Model, D::Model, E::Model) {
        (A::model(value.0), B::model(value.1), C::model(value.2), D::model(value.3), E::model(value.4))
    }

    open spec fn emit(value: (A::Value, B::Value, C::Value, D::Value, E::Value)) -> Emitted {
        <(A, B, C, D) as Codec>::emit((value.0, value.1, value.2, value.3)).followed_by(E::emit(value.4))
    }

    open spec fn parse(bytes: Seq<u8>) -> Parsed<(A::Model, B::Model, C::Model, D::Model, E::Model)> {
        let before = <(A, B, C, D) as Codec>::parse(bytes);
        match before.result {
            Ok(items) => {
                let last = E::parse(bytes.skip(before.consumed as int));
                Parsed {
                    result: match last.result {
                        Ok(item) => Ok((items.0, items.1, items.2, items.3, item)),
                        Err(error) => Err(error),
                    },
                    consumed: before.consumed + last.consumed,
                }
            },
            Err(error) => Parsed { result: Err(error), consumed: before.consumed },
        }
    }

    proof fn parse_is_within(bytes: Seq<u8>) {
        <(A, B, C, D) as Codec>::parse_is_within(bytes);
        E::parse_is_within(bytes.skip(<(A, B, C, D) as Codec>::parse(bytes).consumed as int));
    }

    fn encode(message: &(A::Value, B::Value, C::Value, D::Value, E::Value), buffer: &mut Buffer) -> (result: Result<(), Error>) {
        let ghost before = buffer@;
        match A::encode(&message.0, buffer) {
            Ok(_) => {},
            Err(error) => {
                return Err(error);
            },
        }
        proof {
            before.lemma_written_twice(<(A,) as Codec>::emit((message.0,)).bytes, B::emit(message.1).bytes);
        }
        match B::encode(&message.1, buffer) {
            Ok(_) => {},
            Err(error) => {
                return Err(error);
            },
        }
        proof {
            before.lemma_written_twice(<(A, B) as Codec>::emit((message.0, message.1)).bytes, C::emit(message.2).bytes);
        }
        match C::encode(&message.2, buffer) {
            Ok(_) => {},
            Err(error) => {
                return Err(error);
            },
        }
        proof {
            before.lemma_written_twice(<(A, B, C) as Codec>::emit((message.0, message.1, message.2)).bytes, D::emit(message.3).bytes);
        }
        match D::encode(&message.3, buffer) {
            Ok(_) => {},
            Err(error) => {
                return Err(error);
            },
        }
        proof {
            before.lemma_written_twice(<(A, B, C, D) as Codec>::emit((message.0, message.1, message.2, message.3)).bytes, E::emit(message.4).bytes);
        }
        E::encode(&message.4, buffer)
    }

    fn decode(buffer: &mut Buffer) -> (result: Result<(A::Value, B::Value, C::Value, D::Value, E::Value), Error>) {
        let ghost before = buffer@;
        let item_0 = match A::decode(buffer) {
            Ok(item) => item,
            Err(error) => {
                return Err(error);
            },
        };
        proof {
            let done = <(A,) as Codec>::parse(before.rest);
            <(A,) as Codec>::parse_is_within(before.rest);
            before.lemma_advanced_twice(
                done.consumed,
                B::parse(before.rest.skip(done.consumed as int)).consumed,
            );
        }
        let item_1 = match B::decode(buffer) {
            Ok(item) => item,
            Err(error) => {
                return Err(error);
            },
        };
        proof {
            let done = <(A, B) as Codec>::parse(before.rest);
            <(A, B) as Codec>::parse_is_within(before.rest);
            before.lemma_advanced_twice(
                done.consumed,
                C::parse(before.rest.skip(done.consumed as int)).consumed,
            );
        }
        let item_2 = match C::decode(buffer) {
            Ok(item) => item,
            Err(error) => {
                return Err(error);
            },
        };
        proof {
            let done = <(A, B, C) as Codec>::parse(before.rest);
            <(A, B, C) as Codec>::parse_is_within(before.rest);
            before.lemma_advanced_twice(
                done.consumed,
                D::parse(before.rest.skip(done.consumed as int)).consumed,
            );
        }
        let item_3 = match D::decode(buffer) {
            Ok(item) => item,
            Err(error) => {
                return Err(error);
            },
        };
        proof {
            let done = <(A, B, C, D) as Codec>::parse(before.rest);
            <(A, B, C, D) as Codec>::parse_is_within(before.rest);
            before.lemma_advanced_twice(
                done.consumed,
                E::parse(before.rest.skip(done.consumed as int)).consumed,
            );
        }
        match E::decode(buffer) {
            Ok(item) => Ok((item_0, item_1, item_2, item_3, item)),
            Err(error) => Err(error),
        }
    }
}

impl<A: LosslessCodec, B: LosslessCodec, C: LosslessCodec, D: LosslessCodec, E: LosslessCodec> LosslessCodec for (A, B, C, D, E) {
    open spec fn fits(value: (A::Value, B::Value, C::Value, D::Value, E::Value)) -> bool {
        A::fits(value.0) && B::fits(value.1) && C::fits(value.2) && D::fits(value.3) && E::fits(value.4)
    }

    proof fn law_round_trip(value: (A::Value, B::Value, C::Value, D::Value, E::Value), tail: Seq<u8>) {
        let first = <(A, B, C, D) as Codec>::emit((value.0, value.1, value.2, value.3)).bytes;
        let last = E::emit(value.4).bytes;
        <(A, B, C, D) as LosslessCodec>::law_round_trip((value.0, value.1, value.2, value.3), last + tail);
        E::law_round_trip(value.4, tail);
        assert((first + last) + tail =~= first + (last + tail));
        assert((first + (last + tail)).skip(first.len() as int) =~= last + tail);
    }
}

impl<A: Codec, B: Codec, C: Codec, D: Codec, E: Codec, F: Codec> Codec for (A, B, C, D, E, F) {
    type Value = (A::Value, B::Value, C::Value, D::Value, E::Value, F::Value);

    type Model = (A::Model, B::Model, C::Model, D::Model, E::Model, F::Model);

    open spec fn model(value: (A::Value, B::Value, C::Value, D::Value, E::Value, F::Value)) -> (A::Model, B::Model, C::Model, D::Model, E::Model, F::Model) {
        (A::model(value.0), B::model(value.1), C::model(value.2), D::model(value.3), E::model(value.4), F::model(value.5))
    }

    open spec fn emit(value: (A::Value, B::Value, C::Value, D::Value, E::Value, F::Value)) -> Emitted {
        <(A, B, C, D, E) as Codec>::emit((value.0, value.1, value.2, value.3, value.4)).followed_by(F::emit(value.5))
    }

    open spec fn parse(bytes: Seq<u8>) -> Parsed<(A::Model, B::Model, C::Model, D::Model, E::Model, F::Model)> {
        let before = <(A, B, C, D, E) as Codec>::parse(bytes);
        match before.result {
            Ok(items) => {
                let last = F::parse(bytes.skip(before.consumed as int));
                Parsed {
                    result: match last.result {
                        Ok(item) => Ok((items.0, items.1, items.2, items.3, items.4, item)),
                        Err(error) => Err(error),
                    },
                    consumed: before.consumed + last.consumed,
                }
            },
            Err(error) => Parsed { result: Err(error), consumed: before.consumed },
        }
    }

    proof fn parse_is_within(bytes: Seq<u8>) {
        <(A, B, C, D, E) as Codec>::parse_is_within(bytes);
        F::parse_is_within(bytes.skip(<(A, B, C, D, E) as Codec>::parse(bytes).consumed as int));
    }

    fn encode(message: &(A::Value, B::Value, C::Value, D::Value, E::Value, F::Value), buffer: &mut Buffer) -> (result: Result<(), Error>) {
        let ghost before = buffer@;
        match A::encode(&message.0, buffer) {
            Ok(_) => {},
            Err(error) => {
                return Err(error);
            },
        }
        proof {
            before.lemma_written_twice(<(A,) as Codec>::emit((message.0,)).bytes, B::emit(message.1).bytes);
        }
        match B::encode(&message.1, buffer) {
            Ok(_) => {},
            Err(error) => {
                return Err(error);
            },
        }
        proof {
            before.lemma_written_twice(<(A, B) as Codec>::emit((message.0, message.1)).bytes, C::emit(message.2).bytes);
        }
        match C::encode(&message.2, buffer) {
            Ok(_) => {},
            Err(error) => {
                return Err(error);
            },
        }
        proof {
            before.lemma_written_twice(<(A, B, C) as Codec>::emit((message.0, message.1, message.2)).bytes, D::emit(message.3).bytes);
        }
        match D::encode(&message.3, buffer) {
            Ok(_) => {},
            Err(error) => {
                return Err(error);
            },
        }
        proof {
            before.lemma_written_twice(<(A, B, C, D) as Codec>::emit((message.0, message.1, message.2, message.3)).bytes, E::emit(message.4).bytes);
        }
        match E::encode(&message.4, buffer) {
            Ok(_) => {},
            Err(error) => {
                return Err(error);
            },
        }
        proof {
            before.lemma_written_twice(<(A, B, C, D, E) as Codec>::emit((message.0, message.1, message.2, message.3, message.4)).bytes, F::emit(message.5).bytes);
        }
        F::encode(&message.5, buffer)
    }

    fn decode(buffer: &mut Buffer) -> (result: Result<(A::Value, B::Value, C::Value, D::Value, E::Value, F::Value), Error>) {
        let ghost before = buffer@;
        let item_0 = match A::decode(buffer) {
            Ok(item) => item,
            Err(error) => {
                return Err(error);
            },
        };
        proof {
            let done = <(A,) as Codec>::parse(before.rest);
            <(A,) as Codec>::parse_is_within(before.rest);
            before.lemma_advanced_twice(
                done.consumed,
                B::parse(before.rest.skip(done.consumed as int)).consumed,
            );
        }
        let item_1 = match B::decode(buffer) {
            Ok(item) => item,
            Err(error) => {
                return Err(error);
            },
        };
        proof {
            let done = <(A, B) as Codec>::parse(before.rest);
            <(A, B) as Codec>::parse_is_within(before.rest);
            before.lemma_advanced_twice(
                done.consumed,
                C::parse(before.rest.skip(done.consumed as int)).consumed,
            );
        }
        let item_2 = match C::decode(buffer) {
            Ok(item) => item,
            Err(error) => {
                return Err(error);
            },
        };
        proof {
            let done = <(A, B, C) as Codec>::parse(before.rest);
            <(A, B, C) as Codec>::parse_is_within(before.rest);
            before.lemma_advanced_twice(
                done.consumed,
                D::parse(before.rest.skip(done.consumed as int)).consumed,
            );
        }
        let item_3 = match D::decode(buffer) {
            Ok(item) => item,
            Err(error) => {
                return Err(error);
            },
        };
        proof {
            let done = <(A, B, C, D) as Codec>::parse(before.rest);
            <(A, B, C, D) as Codec>::parse_is_within(before.rest);
            before.lemma_advanced_twice(
                done.consumed,
                E::parse(before.rest.skip(done.consumed as int)).consumed,
            );
        }
        let item_4 = match E::decode(buffer) {
            Ok(item) => item,
            Err(error) => {
                return Err(error);
            },
        };
        proof {
            let done = <(A, B, C, D, E) as Codec>::parse(before.rest);
            <(A, B, C, D, E) as Codec>::parse_is_within(before.rest);
            before.lemma_advanced_twice(
                done.consumed,
                F::parse(before.rest.skip(done.consumed as int)).consumed,
            );
        }
        match F::decode(buffer) {
            Ok(item) => Ok((item_0, item_1, item_2, item_3, item_4, item)),
            Err(error) => Err(error),
        }
    }
}

impl<A: LosslessCodec, B: LosslessCodec, C: LosslessCodec, D: LosslessCodec, E: LosslessCodec, F: LosslessCodec> LosslessCodec for (A, B, C, D, E, F) {
    open spec fn fits(value: (A::Value, B::Value, C::Value, D::Value, E::Value, F::Value)) -> bool {
        A::fits(value.0) && B::fits(value.1) && C::fits(value.2) && D::fits(value.3) && E::fits(value.4) && F::fits(value.5)
    }

    proof fn law_round_trip(value: (A::Value, B::Value, C::Value, D::Value, E::Value, F::Value), tail: Seq<u8>) {
        let first = <(A, B, C, D, E) as Codec>::emit((value.0, value.1, value.2, value.3, value.4)).bytes;
        let last = F::emit(value.5).bytes;
        <(A, B, C, D, E) as LosslessCodec>::law_round_trip((value.0, value.1, value.2, value.3, value.4), last + tail);
        F::law_round_trip(value.5, tail);
        assert((first + last) + tail =~= first + (last + tail));
        assert((first + (last + tail)).skip(first.len() as int) =~= last + tail);
    }
}

impl<A: Codec, B: Codec, C: Codec, D: Codec, E: Codec, F: Codec, G: Codec> Codec for (A, B, C, D, E, F, G) {
    type Value = (A::Value, B::Value, C::Value, D::Value, E::Value, F::Value, G::Value);

    type Model = (A::Model, B::Model, C::Model, D::Model, E::Model, F::Model, G::Model);

    open spec fn model(value: (A::Value, B::Value, C::Value, D::Value, E::Value, F::Value, G::Value)) -> (A::Model, B::Model, C::Model, D::Model, E::Model, F::Model, G::Model) {
        (A::model(value.0), B::model(value.1), C::model(value.2), D::model(value.3), E::model(value.4), F::model(value.5), G::model(value.6))
    }

    open spec fn emit(value: (A::Value, B::Value, C::Value, D::Value, E::Value, F::Value, G::Value)) -> Emitted {
        <(A, B, C, D, E, F) as Codec>::emit((value.0, value.1, value.2, value.3, value.4, value.5)).followed_by(G::emit(value.6))
    }

    open spec fn parse(bytes: Seq<u8>) -> Parsed<(A::Model, B::Model, C::Model, D::Model, E::Model, F::Model, G::Model)> {
        let before = <(A, B, C, D, E, F) as Codec>::parse(bytes);
        match before.result {
            Ok(items) => {
                let last = G::parse(bytes.skip(before.consumed as int));
                Parsed {
                    result: match last.result {
                        Ok(item) => Ok((items.0, items.1, items.2, items.3, items.4, items.5, item)),
                        Err(error) => Err(error),
                    },
                    consumed: before.consumed + last.consumed,
                }
            },
            Err(error) => Parsed { result: Err(error), consumed: before.consumed },
        }
    }

    proof fn parse_is_within(bytes: Seq<u8>) {
        <(A, B, C, D, E, F) as Codec>::parse_is_within(bytes);
        G::parse_is_within(bytes.skip(<(A, B, C, D, E, F) as Codec>::parse(bytes).consumed as int));
    }

    fn encode(message: &(A::Value, B::Value, C::Value, D::Value, E::Value, F::Value, G::Value), buffer: &mut Buffer) -> (result: Result<(), Error>) {
        let ghost before = buffer@;
        match A::encode(&message.0, buffer) {
            Ok(_) => {},
            Err(error) => {
                return Err(error);
            },
        }
        proof {
            before.lemma_written_twice(<(A,) as Codec>::emit((message.0,)).bytes, B::emit(message.1).bytes);
        }
        match B::encode(&message.1, buffer) {
            Ok(_) => {},
            Err(error) => {
                return Err(error);
            },
        }
        proof {
            before.lemma_written_twice(<(A, B) as Codec>::emit((message.0, message.1)).bytes, C::emit(message.2).bytes);
        }
        match C::encode(&message.2, buffer) {
            Ok(_) => {},
            Err(error) => {
                return Err(error);
            },
        }
        proof {
            before.lemma_written_twice(<(A, B, C) as Codec>::emit((message.0, message.1, message.2)).bytes, D::emit(message.3).bytes);
        }
        match D::encode(&message.3, buffer) {
            Ok(_) => {},
            Err(error) => {
                return Err(error);
            },
        }
        proof {
            before.lemma_written_twice(<(A, B, C, D) as Codec>::emit((message.0, message.1, message.2, message.3)).bytes, E::emit(message.4).bytes);
        }
        match E::encode(&message.4, buffer) {
            Ok(_) => {},
            Err(error) => {
                return Err(error);
            },
        }
        proof {
            before.lemma_written_twice(<(A, B, C, D, E) as Codec>::emit((message.0, message.1, message.2, message.3, message.4)).bytes, F::emit(message.5).bytes);
        }
        match F::encode(&message.5, buffer) {
            Ok(_) => {},
            Err(error) => {
                return Err(error);
            },
        }
        proof {
            before.lemma_written_twice(<(A, B, C, D, E, F) as Codec>::emit((message.0, message.1, message.2, message.3, message.4, message.5)).bytes, G::emit(message.6).bytes);
        }
        G::encode(&message.6, buffer)
    }

    fn decode(buffer: &mut Buffer) -> (result: Result<(A::Value, B::Value, C::Value, D::Value, E::Value, F::Value, G::Value), Error>) {
        let ghost before = buffer@;
        let item_0 = match A::decode(buffer) {
            Ok(item) => item,
            Err(error) => {
                return Err(error);
            },
        };
        proof {
            let done = <(A,) as Codec>::parse(before.rest);
            <(A,) as Codec>::parse_is_within(before.rest);
            before.lemma_advanced_twice(
                done.consumed,
                B::parse(before.rest.skip(done.consumed as int)).consumed,
            );
        }
        let item_1 = match B::decode(buffer) {
            Ok(item) => item,
            Err(error) => {
                return Err(error);
            },
        };
        proof {
            let done = <(A, B) as Codec>::parse(before.rest);
            <(A, B) as Codec>::parse_is_within(before.rest);
            before.lemma_advanced_twice(
                done.consumed,
                C::parse(before.rest.skip(done.consumed as int)).consumed,
            );
        }
        let item_2 = match C::decode(buffer) {
            Ok(item) => item,
            Err(error) => {
                return Err(error);
            },
        };
        proof {
            let done = <(A, B, C) as Codec>::parse(before.rest);
            <(A, B, C) as Codec>::parse_is_within(before.rest);
            before.lemma_advanced_twice(
                done.consumed,
                D::parse(before.rest.skip(done.consumed as int)).consumed,
            );
        }
        let item_3 = match D::decode(buffer) {
            Ok(item) => item,
            Err(error) => {
                return Err(error);
            },
        };
        proof {
            let done = <(A, B, C, D) as Codec>::parse(before.rest);
            <(A, B, C, D) as Codec>::parse_is_within(before.rest);
            before.lemma_advanced_twice(
                done.consumed,
                E::parse(before.rest.skip(done.consumed as int)).consumed,
            );
        }
        let item_4 = match E::decode(buffer) {
            Ok(item) => item,
            Err(error) => {
                return Err(error);
            },
        };
        proof {
            let done = <(A, B, C, D, E) as Codec>::parse(before.rest);
            <(A, B, C, D, E) as Codec>::parse_is_within(before.rest);
            before.lemma_advanced_twice(
                done.consumed,
                F::parse(before.rest.skip(done.consumed as int)).consumed,
            );
        }
        let item_5 = match F::decode(buffer) {
            Ok(item) => item,
            Err(error) => {
                return Err(error);
            },
        };
        proof {
            let done = <(A, B, C, D, E, F) as Codec>::parse(before.rest);
            <(A, B, C, D, E, F) as Codec>::parse_is_within(before.rest);
            before.lemma_advanced_twice(
                done.consumed,
                G::parse(before.rest.skip(done.consumed as int)).consumed,
            );
        }
        match G::decode(buffer) {
            Ok(item) => Ok((item_0, item_1, item_2, item_3, item_4, item_5, item)),
            Err(error) => Err(error),
        }
    }
}

impl<A: LosslessCodec, B: LosslessCodec, C: LosslessCodec, D: LosslessCodec, E: LosslessCodec, F: LosslessCodec, G: LosslessCodec> LosslessCodec for (A, B, C, D, E, F, G) {
    open spec fn fits(value: (A::Value, B::Value, C::Value, D::Value, E::Value, F::Value, G::Value)) -> bool {
        A::fits(value.0) && B::fits(value.1) && C::fits(value.2) && D::fits(value.3) && E::fits(value.4) && F::fits(value.5) && G::fits(value.6)
    }

    proof fn law_round_trip(value: (A::Value, B::Value, C::Value, D::Value, E::Value, F::Value, G::Value), tail: Seq<u8>) {
        let first = <(A, B, C, D, E, F) as Codec>::emit((value.0, value.1, value.2, value.3, value.4, value.5)).bytes;
        let last = G::emit(value.6).bytes;
        <(A, B, C, D, E, F) as LosslessCodec>::law_round_trip((value.0, value.1, value.2, value.3, value.4, value.5), last + tail);
        G::law_round_trip(value.6, tail);
        assert((first + last) + tail =~= first + (last + tail));
        assert((first + (last + tail)).skip(first.len() as int) =~= last + tail);
    }
}

impl<A: Codec, B: Codec, C: Codec, D: Codec, E: Codec, F: Codec, G: Codec, H: Codec> Codec for (A, B, C, D, E, F, G, H) {
    type Value = (A::Value, B::Value, C::Value, D::Value, E::Value, F::Value, G::Value, H::Value);

    type Model = (A::Model, B::Model, C::Model, D::Model, E::Model, F::Model, G::Model, H::Model);

    open spec fn model(value: (A::Value, B::Value, C::Value, D::Value, E::Value, F::Value, G::Value, H::Value)) -> (A::Model, B::Model, C::Model, D::Model, E::Model, F::Model, G::Model, H::Model) {
        (A::model(value.0), B::model(value.1), C::model(value.2), D::model(value.3), E::model(value.4), F::model(value.5), G::model(value.6), H::model(value.7))
    }

    open spec fn emit(value: (A::Value, B::Value, C::Value, D::Value, E::Value, F::Value, G::Value, H::Value)) -> Emitted {
        <(A, B, C, D, E, F, G) as Codec>::emit((value.0, value.1, value.2, value.3, value.4, value.5, value.6)).followed_by(H::emit(value.7))
    }

    open spec fn parse(bytes: Seq<u8>) -> Parsed<(A::Model, B::Model, C::Model, D::Model, E::Model, F::Model, G::Model, H::Model)> {
        let before = <(A, B, C, D, E, F, G) as Codec>::parse(bytes);
        match before.result {
            Ok(items) => {
                let last = H::parse(bytes.skip(before.consumed as int));
                Parsed {
                    result: match last.result {
                        Ok(item) => Ok((items.0, items.1, items.2, items.3, items.4, items.5, items.6, item)),
                        Err(error) => Err(error),
                    },
                    consumed: before.consumed + last.consumed,
                }
            },
            Err(error) => Parsed { result: Err(error), consumed: before.consumed },
        }
    }

    proof fn parse_is_within(bytes: Seq<u8>) {
        <(A, B, C, D, E, F, G) as Codec>::parse_is_within(bytes);
        H::parse_is_within(bytes.skip(<(A, B, C, D, E, F, G) as Codec>::parse(bytes).consumed as int));
    }

    fn encode(message: &(A::Value, B::Value, C::Value, D::Value, E::Value, F::Value, G::Value, H::Value), buffer: &mut Buffer) -> (result: Result<(), Error>) {
        let ghost before = buffer@;
        match A::encode(&message.0, buffer) {
            Ok(_) => {},
            Err(error) => {
                return Err(error);
            },
        }
        proof {
            before.lemma_written_twice(<(A,) as Codec>::emit((message.0,)).bytes, B::emit(message.1).bytes);
        }
        match B::encode(&message.1, buffer) {
            Ok(_) => {},
            Err(error) => {
                return Err(error);
            },
        }
        proof {
            before.lemma_written_twice(<(A, B) as Codec>::emit((message.0, message.1)).bytes, C::emit(message.2).bytes);
        }
        match C::encode(&message.2, buffer) {
            Ok(_) => {},
            Err(error) => {
                return Err(error);
            },
        }
        proof {
            before.lemma_written_twice(<(A, B, C) as Codec>::emit((message.0, message.1, message.2)).bytes, D::emit(message.3).bytes);
        }
        match D::encode(&message.3, buffer) {
            Ok(_) => {},
            Err(error) => {
                return Err(error);
            },
        }
        proof {
            before.lemma_written_twice(<(A, B, C, D) as Codec>::emit((message.0, message.1, message.2, message.3)).bytes, E::emit(message.4).bytes);
        }
        match E::encode(&message.4, buffer) {
            Ok(_) => {},
            Err(error) => {
                return Err(error);
            },
        }
        proof {
            before.lemma_written_twice(<(A, B, C, D, E) as Codec>::emit((message.0, message.1, message.2, message.3, message.4)).bytes, F::emit(message.5).bytes);
        }
        match F::encode(&message.5, buffer) {
            Ok(_) => {},
            Err(error) => {
                return Err(error);
            },
        }
        proof {
            before.lemma_written_twice(<(A, B, C, D, E, F) as Codec>::emit((message.0, message.1, message.2, message.3, message.4, message.5)).bytes, G::emit(message.6).bytes);
        }
        match G::encode(&message.6, buffer) {
            Ok(_) => {},
            Err(error) => {
                return Err(error);
            },
        }
        proof {
            before.lemma_written_twice(<(A, B, C, D, E, F, G) as Codec>::emit((message.0, message.1, message.2, message.3, message.4, message.5, message.6)).bytes, H::emit(message.7).bytes);
        }
        H::encode(&message.7, buffer)
    }

    fn decode(buffer: &mut Buffer) -> (result: Result<(A::Value, B::Value, C::Value, D::Value, E::Value, F::Value, G::Value, H::Value), Error>) {
        let ghost before = buffer@;
        let item_0 = match A::decode(buffer) {
            Ok(item) => item,
            Err(error) => {
                return Err(error);
            },
        };
        proof {
            let done = <(A,) as Codec>::parse(before.rest);
            <(A,) as Codec>::parse_is_within(before.rest);
            before.lemma_advanced_twice(
                done.consumed,
                B::parse(before.rest.skip(done.consumed as int)).consumed,
            );
        }
        let item_1 = match B::decode(buffer) {
            Ok(item) => item,
            Err(error) => {
                return Err(error);
            },
        };
        proof {
            let done = <(A, B) as Codec>::parse(before.rest);
            <(A, B) as Codec>::parse_is_within(before.rest);
            before.lemma_advanced_twice(
                done.consumed,
                C::parse(before.rest.skip(done.consumed as int)).consumed,
            );
        }
        let item_2 = match C::decode(buffer) {
            Ok(item) => item,
            Err(error) => {
                return Err(error);
            },
        };
        proof {
            let done = <(A, B, C) as Codec>::parse(before.rest);
            <(A, B, C) as Codec>::parse_is_within(before.rest);
            before.lemma_advanced_twice(
                done.consumed,
                D::parse(before.rest.skip(done.consumed as int)).consumed,
            );
        }
        let item_3 = match D::decode(buffer) {
            Ok(item) => item,
            Err(error) => {
                return Err(error);
            },
        };
        proof {
            let done = <(A, B, C, D) as Codec>::parse(before.rest);
            <(A, B, C, D) as Codec>::parse_is_within(before.rest);
            before.lemma_advanced_twice(
                done.consumed,
                E::parse(before.rest.skip(done.consumed as int)).consumed,
            );
        }
        let item_4 = match E::decode(buffer) {
            Ok(item) => item,
            Err(error) => {
                return Err(error);
            },
        };
        proof {
            let done = <(A, B, C, D, E) as Codec>::parse(before.rest);
            <(A, B, C, D, E) as Codec>::parse_is_within(before.rest);
            before.lemma_advanced_twice(
                done.consumed,
                F::parse(before.rest.skip(done.consumed as int)).consumed,
            );
        }
        let item_5 = match F::decode(buffer) {
            Ok(item) => item,
            Err(error) => {
                return Err(error);
            },
        };
        proof {
            let done = <(A, B, C, D, E, F) as Codec>::parse(before.rest);
            <(A, B, C, D, E, F) as Codec>::parse_is_within(before.rest);
            before.lemma_advanced_twice(
                done.consumed,
                G::parse(before.rest.skip(done.consumed as int)).consumed,
            );
        }
        let item_6 = match G::decode(buffer) {
            Ok(item) => item,
            Err(error) => {
                return Err(error);
            },
        };
        proof {
            let done = <(A, B, C, D, E, F, G) as Codec>::parse(before.rest);
            <(A, B, C, D, E, F, G) as Codec>::parse_is_within(before.rest);
            before.lemma_advanced_twice(
                done.consumed,
                H::parse(before.rest.skip(done.consumed as int)).consumed,
            );
        }
        match H::decode(buffer) {
            Ok(item) => Ok((item_0, item_1, item_2, item_3, item_4, item_5, item_6, item)),
            Err(error) => Err(error),
        }
    }
}

impl<A: LosslessCodec, B: LosslessCodec, C: LosslessCodec, D: LosslessCodec, E: LosslessCodec, F: LosslessCodec, G: LosslessCodec, H: LosslessCodec> LosslessCodec for (A, B, C, D, E, F, G, H) {
    open spec fn fits(value: (A::Value, B::Value, C::Value, D::Value, E::Value, F::Value, G::Value, H::Value)) -> bool {
        A::fits(value.0) && B::fits(value.1) && C::fits(value.2) && D::fits(value.3) && E::fits(value.4) && F::fits(value.5) && G::fits(value.6) && H::fits(value.7)
    }

    proof fn law_round_trip(value: (A::Value, B::Value, C::Value, D::Value, E::Value, F::Value, G::Value, H::Value), tail: Seq<u8>) {
        let first = <(A, B, C, D, E, F, G) as Codec>::emit((value.0, value.1, value.2, value.3, value.4, value.5, value.6)).bytes;
        let last = H::emit(value.7).bytes;
        <(A, B, C, D, E, F, G) as LosslessCodec>::law_round_trip((value.0, value.1, value.2, value.3, value.4, value.5, value.6), last + tail);
        H::law_round_trip(value.7, tail);
        assert((first + last) + tail =~= first + (last + tail));
        assert((first + (last + tail)).skip(first.len() as int) =~= last + tail);
    }
}

impl<A: Codec, B: Codec, C: Codec, D: Codec, E: Codec, F: Codec, G: Codec, H: Codec, I: Codec> Codec for (A, B, C, D, E, F, G, H, I) {
    type Value = (A::Value, B::Value, C::Value, D::Value, E::Value, F::Value, G::Value, H::Value, I::Value);

    type Model = (A::Model, B::Model, C::Model, D::Model, E::Model, F::Model, G::Model, H::Model, I::Model);

    open spec fn model(value: (A::Value, B::Value, C::Value, D::Value, E::Value, F::Value, G::Value, H::Value, I::Value)) -> (A::Model, B::Model, C::Model, D::Model, E::Model, F::Model, G::Model, H::Model, I::Model) {
        (A::model(value.0), B::model(value.1), C::model(value.2), D::model(value.3), E::model(value.4), F::model(value.5), G::model(value.6), H::model(value.7), I::model(value.8))
    }

    open spec fn emit(value: (A::Value, B::Value, C::Value, D::Value, E::Value, F::Value, G::Value, H::Value, I::Value)) -> Emitted {
        <(A, B, C, D, E, F, G, H) as Codec>::emit((value.0, value.1, value.2, value.3, value.4, value.5, value.6, value.7)).followed_by(I::emit(value.8))
    }

    open spec fn parse(bytes: Seq<u8>) -> Parsed<(A::Model, B::Model, C::Model, D::Model, E::Model, F::Model, G::Model, H::Model, I::Model)> {
        let before = <(A, B, C, D, E, F, G, H) as Codec>::parse(bytes);
        match before.result {
            Ok(items) => {
                let last = I::parse(bytes.skip(before.consumed as int));
                Parsed {
                    result: match last.result {
                        Ok(item) => Ok((items.0, items.1, items.2, items.3, items.4, items.5, items.6, items.7, item)),
                        Err(error) => Err(error),
                    },
                    consumed: before.consumed + last.consumed,
                }
            },
            Err(error) => Parsed { result: Err(error), consumed: before.consumed },
        }
    }

    proof fn parse_is_within(bytes: Seq<u8>) {
        <(A, B, C, D, E, F, G, H) as Codec>::parse_is_within(bytes);
        I::parse_is_within(bytes.skip(<(A, B, C, D, E, F, G, H) as Codec>::parse(bytes).consumed as int));
    }

    fn encode(message: &(A::Value, B::Value, C::Value, D::Value, E::Value, F::Value, G::Value, H::Value, I::Value), buffer: &mut Buffer) -> (result: Result<(), Error>) {
        let ghost before = buffer@;
        match A::encode(&message.0, buffer) {
            Ok(_) => {},
            Err(error) => {
                return Err(error);
            },
        }
        proof {
            before.lemma_written_twice(<(A,) as Codec>::emit((message.0,)).bytes, B::emit(message.1).bytes);
        }
        match B::encode(&message.1, buffer) {
            Ok(_) => {},
            Err(error) => {
                return Err(error);
            },
        }
        proof {
            before.lemma_written_twice(<(A, B) as Codec>::emit((message.0, message.1)).bytes, C::emit(message.2).bytes);
        }
        match C::encode(&message.2, buffer) {
            Ok(_) => {},
            Err(error) => {
                return Err(error);
            },
        }
        proof {
            before.lemma_written_twice(<(A, B, C) as Codec>::emit((message.0, message.1, message.2)).bytes, D::emit(message.3).bytes);
        }
        match D::encode(&message.3, buffer) {
            Ok(_) => {},
            Err(error) => {
                return Err(error);
            },
        }
        proof {
            before.lemma_written_twice(<(A, B, C, D) as Codec>::emit((message.0, message.1, message.2, message.3)).bytes, E::emit(message.4).bytes);
        }
        match E::encode(&message.4, buffer) {
            Ok(_) => {},
            Err(error) => {
                return Err(error);
            },
        }
        proof {
            before.lemma_written_twice(<(A, B, C, D, E) as Codec>::emit((message.0, message.1, message.2, message.3, message.4)).bytes, F::emit(message.5).bytes);
        }
        match F::encode(&message.5, buffer) {
            Ok(_) => {},
            Err(error) => {
                return Err(error);
            },
        }
        proof {
            before.lemma_written_twice(<(A, B, C, D, E, F) as Codec>::emit((message.0, message.1, message.2, message.3, message.4, message.5)).bytes, G::emit(message.6).bytes);
        }
        match G::encode(&message.6, buffer) {
            Ok(_) => {},
            Err(error) => {
                return Err(error);
            },
        }
        proof {
            before.lemma_written_twice(<(A, B, C, D, E, F, G) as Codec>::emit((message.0, message.1, message.2, message.3, message.4, message.5, message.6)).bytes, H::emit(message.7).bytes);
        }
        match H::encode(&message.7, buffer) {
            Ok(_) => {},
            Err(error) => {
                return Err(error);
            },
        }
        proof {
            before.lemma_written_twice(<(A, B, C, D, E, F, G, H) as Codec>::emit((message.0, message.1, message.2, message.3, message.4, message.5, message.6, message.7)).bytes, I::emit(message.8).bytes);
        }
        I::encode(&message.8, buffer)
    }

    fn decode(buffer: &mut Buffer) -> (result: Result<(A::Value, B::Value, C::Value, D::Value, E::Value, F::Value, G::Value, H::Value, I::Value), Error>) {
        let ghost before = buffer@;
        let item_0 = match A::decode(buffer) {
            Ok(item) => item,
            Err(error) => {
                return Err(error);
            },
        };
        proof {
            let done = <(A,) as Codec>::parse(before.rest);
            <(A,) as Codec>::parse_is_within(before.rest);
            before.lemma_advanced_twice(
                done.consumed,
                B::parse(before.rest.skip(done.consumed as int)).consumed,
            );
        }
        let item_1 = match B::decode(buffer) {
            Ok(item) => item,
            Err(error) => {
                return Err(error);
            },
        };
        proof {
            let done = <(A, B) as Codec>::parse(before.rest);
            <(A, B) as Codec>::parse_is_within(before.rest);
            before.lemma_advanced_twice(
                done.consumed,
                C::parse(before.rest.skip(done.consumed as int)).consumed,
            );
        }
        let item_2 = match C::decode(buffer) {
            Ok(item) => item,
            Err(error) => {
                return Err(error);
            },
        };
        proof {
            let done = <(A, B, C) as Codec>::parse(before.rest);
            <(A, B, C) as Codec>::parse_is_within(before.rest);
            before.lemma_advanced_twice(
                done.consumed,
                D::parse(before.rest.skip(done.consumed as int)).consumed,
            );
        }
        let item_3 = match D::decode(buffer) {
            Ok(item) => item,
            Err(error) => {
                return Err(error);
            },
        };
        proof {
            let done = <(A, B, C, D) as Codec>::parse(before.rest);
            <(A, B, C, D) as Codec>::parse_is_within(before.rest);
            before.lemma_advanced_twice(
                done.consumed,
                E::parse(before.rest.skip(done.consumed as int)).consumed,
            );
        }
        let item_4 = match E::decode(buffer) {
            Ok(item) => item,
            Err(error) => {
                return Err(error);
            },
        };
        proof {
            let done = <(A, B, C, D, E) as Codec>::parse(before.rest);
            <(A, B, C, D, E) as Codec>::parse_is_within(before.rest);
            before.lemma_advanced_twice(
                done.consumed,
                F::parse(before.rest.skip(done.consumed as int)).consumed,
            );
        }
        let item_5 = match F::decode(buffer) {
            Ok(item) => item,
            Err(error) => {
                return Err(error);
            },
        };
        proof {
            let done = <(A, B, C, D, E, F) as Codec>::parse(before.rest);
            <(A, B, C, D, E, F) as Codec>::parse_is_within(before.rest);
            before.lemma_advanced_twice(
                done.consumed,
                G::parse(before.rest.skip(done.consumed as int)).consumed,
            );
        }
        let item_6 = match G::decode(buffer) {
            Ok(item) => item,
            Err(error) => {
                return Err(error);
            },
        };
        proof {
            let done = <(A, B, C, D, E, F, G) as Codec>::parse(before.rest);
            <(A, B, C, D, E, F, G) as Codec>::parse_is_within(before.rest);
            before.lemma_advanced_twice(
                done.consumed,
                H::parse(before.rest.skip(done.consumed as int)).consumed,
            );
        }
        let item_7 = match H::decode(buffer) {
            Ok(item) => item,
            Err(error) => {
                return Err(error);
            },
        };
        proof {
            let done = <(A, B, C, D, E, F, G, H) as Codec>::parse(before.rest);
            <(A, B, C, D, E, F, G, H) as Codec>::parse_is_within(before.rest);
            before.lemma_advanced_twice(
                done.consumed,
                I::parse(before.rest.skip(done.consumed as int)).consumed,
            );
        }
        match I::decode(buffer) {
            Ok(item) => Ok((item_0, item_1, item_2, item_3, item_4, item_5, item_6, item_7, item)),
            Err(error) => Err(error),
        }
    }
}

impl<A: LosslessCodec, B: LosslessCodec, C: LosslessCodec, D: LosslessCodec, E: LosslessCodec, F: LosslessCodec, G: LosslessCodec, H: LosslessCodec, I: LosslessCodec> LosslessCodec for (A, B, C, D, E, F, G, H, I) {
    open spec fn fits(value: (A::Value, B::Value, C::Value, D::Value, E::Value, F::Value, G::Value, H::Value, I::Value)) -> bool {
        A::fits(value.0) && B::fits(value.1) && C::fits(value.2) && D::fits(value.3) && E::fits(value.4) && F::fits(value.5) && G::fits(value.6) && H::fits(value.7) && I::fits(value.8)
    }

    proof fn law_round_trip(value: (A::Value, B::Value, C::Value, D::Value, E::Value, F::Value, G::Value, H::Value, I::Value), tail: Seq<u8>) {
        let first = <(A, B, C, D, E, F, G, H) as Codec>::emit((value.0, value.1, value.2, value.3, value.4, value.5, value.6, value.7)).bytes;
        let last = I::emit(value.8).bytes;
        <(A, B, C, D, E, F, G, H) as LosslessCodec>::law_round_trip((value.0, value.1, value.2, value.3, value.4, value.5, value.6, value.7), last + tail);
        I::law_round_trip(value.8, tail);
        assert((first + last) + tail =~= first + (last + tail));
        assert((first + (last + tail)).skip(first.len() as int) =~= last + tail);
    }
}

impl<A: Codec, B: Codec, C: Codec, D: Codec, E: Codec, F: Codec, G: Codec, H: Codec, I: Codec, J: Codec> Codec for (A, B, C, D, E, F, G, H, I, J) {
    type Value = (A::Value, B::Value, C::Value, D::Value, E::Value, F::Value, G::Value, H::Value, I::Value, J::Value);

    type Model = (A::Model, B::Model, C::Model, D::Model, E::Model, F::Model, G::Model, H::Model, I::Model, J::Model);

    open spec fn model(value: (A::Value, B::Value, C::Value, D::Value, E::Value, F::Value, G::Value, H::Value, I::Value, J::Value)) -> (A::Model, B::Model, C::Model, D::Model, E::Model, F::Model, G::Model, H::Model, I::Model, J::Model) {
        (A::model(value.0), B::model(value.1), C::model(value.2), D::model(value.3), E::model(value.4), F::model(value.5), G::model(value.6), H::model(value.7), I::model(value.8), J::model(value.9))
    }

    open spec fn emit(value: (A::Value, B::Value, C::Value, D::Value, E::Value, F::Value, G::Value, H::Value, I::Value, J::Value)) -> Emitted {
        <(A, B, C, D, E, F, G, H, I) as Codec>::emit((value.0, value.1, value.2, value.3, value.4, value.5, value.6, value.7, value.8)).followed_by(J::emit(value.9))
    }

    open spec fn parse(bytes: Seq<u8>) -> Parsed<(A::Model, B::Model, C::Model, D::Model, E::Model, F::Model, G::Model, H::Model, I::Model, J::Model)> {
        let before = <(A, B, C, D, E, F, G, H, I) as Codec>::parse(bytes);
        match before.result {
            Ok(items) => {
                let last = J::parse(bytes.skip(before.consumed as int));
                Parsed {
                    result: match last.result {
                        Ok(item) => Ok((items.0, items.1, items.2, items.3, items.4, items.5, items.6, items.7, items.8, item)),
                        Err(error) => Err(error),
                    },
                    consumed: before.consumed + last.consumed,
                }
            },
            Err(error) => Parsed { result: Err(error), consumed: before.consumed },
        }
    }

    proof fn parse_is_within(bytes: Seq<u8>) {
        <(A, B, C, D, E, F, G, H, I) as Codec>::parse_is_within(bytes);
        J::parse_is_within(bytes.skip(<(A, B, C, D, E, F, G, H, I) as Codec>::parse(bytes).consumed as int));
    }

    fn encode(message: &(A::Value, B::Value, C::Value, D::Value, E::Value, F::Value, G::Value, H::Value, I::Value, J::Value), buffer: &mut Buffer) -> (result: Result<(), Error>) {
        let ghost before = buffer@;
        match A::encode(&message.0, buffer) {
            Ok(_) => {},
            Err(error) => {
                return Err(error);
            },
        }
        proof {
            before.lemma_written_twice(<(A,) as Codec>::emit((message.0,)).bytes, B::emit(message.1).bytes);
        }
        match B::encode(&message.1, buffer) {
            Ok(_) => {},
            Err(error) => {
                return Err(error);
            },
        }
        proof {
            before.lemma_written_twice(<(A, B) as Codec>::emit((message.0, message.1)).bytes, C::emit(message.2).bytes);
        }
        match C::encode(&message.2, buffer) {
            Ok(_) => {},
            Err(error) => {
                return Err(error);
            },
        }
        proof {
            before.lemma_written_twice(<(A, B, C) as Codec>::emit((message.0, message.1, message.2)).bytes, D::emit(message.3).bytes);
        }
        match D::encode(&message.3, buffer) {
            Ok(_) => {},
            Err(error) => {
                return Err(error);
            },
        }
        proof {
            before.lemma_written_twice(<(A, B, C, D) as Codec>::emit((message.0, message.1, message.2, message.3)).bytes, E::emit(message.4).bytes);
        }
        match E::encode(&message.4, buffer) {
            Ok(_) => {},
            Err(error) => {
                return Err(error);
            },
        }
        proof {
            before.lemma_written_twice(<(A, B, C, D, E) as Codec>::emit((message.0, message.1, message.2, message.3, message.4)).bytes, F::emit(message.5).bytes);
        }
        match F::encode(&message.5, buffer) {
            Ok(_) => {},
            Err(error) => {
                return Err(error);
            },
        }
        proof {
            before.lemma_written_twice(<(A, B, C, D, E, F) as Codec>::emit((message.0, message.1, message.2, message.3, message.4, message.5)).bytes, G::emit(message.6).bytes);
        }
        match G::encode(&message.6, buffer) {
            Ok(_) => {},
            Err(error) => {
                return Err(error);
            },
        }
        proof {
            before.lemma_written_twice(<(A, B, C, D, E, F, G) as Codec>::emit((message.0, message.1, message.2, message.3, message.4, message.5, message.6)).bytes, H::emit(message.7).bytes);
        }
        match H::encode(&message.7, buffer) {
            Ok(_) => {},
            Err(error) => {
                return Err(error);
            },
        }
        proof {
            before.lemma_written_twice(<(A, B, C, D, E, F, G, H) as Codec>::emit((message.0, message.1, message.2, message.3, message.4, message.5, message.6, message.7)).bytes, I::emit(message.8).bytes);
        }
        match I::encode(&message.8, buffer) {
            Ok(_) => {},
            Err(error) => {
                return Err(error);
            },
        }
        proof {
            before.lemma_written_twice(<(A, B, C, D, E, F, G, H, I) as Codec>::emit((message.0, message.1, message.2, message.3, message.4, message.5, message.6, message.7, message.8)).bytes, J::emit(message.9).bytes);
        }
        J::encode(&message.9, buffer)
    }

    fn decode(buffer: &mut Buffer) -> (result: Result<(A::Value, B::Value, C::Value, D::Value, E::Value, F::Value, G::Value, H::Value, I::Value, J::Value), Error>) {
        let ghost before = buffer@;
        let item_0 = match A::decode(buffer) {
            Ok(item) => item,
            Err(error) => {
                return Err(error);
            },
        };
        proof {
            let done = <(A,) as Codec>::parse(before.rest);
            <(A,) as Codec>::parse_is_within(before.rest);
            before.lemma_advanced_twice(
                done.consumed,
                B::parse(before.rest.skip(done.consumed as int)).consumed,
            );
        }
        let item_1 = match B::decode(buffer) {
            Ok(item) => item,
            Err(error) => {
                return Err(error);
            },
        };
        proof {
            let done = <(A, B) as Codec>::parse(before.rest);
            <(A, B) as Codec>::parse_is_within(before.rest);
            before.lemma_advanced_twice(
                done.consumed,
                C::parse(before.rest.skip(done.consumed as int)).consumed,
            );
        }
        let item_2 = match C::decode(buffer) {
            Ok(item) => item,
            Err(error) => {
                return Err(error);
            },
        };
        proof {
            let done = <(A, B, C) as Codec>::parse(before.rest);
            <(A, B, C) as Codec>::parse_is_within(before.rest);
            before.lemma_advanced_twice(
                done.consumed,
                D::parse(before.rest.skip(done.consumed as int)).consumed,
            );
        }
        let item_3 = match D::decode(buffer) {
            Ok(item) => item,
            Err(error) => {
                return Err(error);
            },
        };
        proof {
            let done = <(A, B, C, D) as Codec>::parse(before.rest);
            <(A, B, C, D) as Codec>::parse_is_within(before.rest);
            before.lemma_advanced_twice(
                done.consumed,
                E::parse(before.rest.skip(done.consumed as int)).consumed,
            );
        }
        let item_4 = match E::decode(buffer) {
            Ok(item) => item,
            Err(error) => {
                return Err(error);
            },
        };
        proof {
            let done = <(A, B, C, D, E) as Codec>::parse(before.rest);
            <(A, B, C, D, E) as Codec>::parse_is_within(before.rest);
            before.lemma_advanced_twice(
                done.consumed,
                F::parse(before.rest.skip(done.consumed as int)).consumed,
            );
        }
        let item_5 = match F::decode(buffer) {
            Ok(item) => item,
            Err(error) => {
                return Err(error);
            },
        };
        proof {
            let done = <(A, B, C, D, E, F) as Codec>::parse(before.rest);
            <(A, B, C, D, E, F) as Codec>::parse_is_within(before.rest);
            before.lemma_advanced_twice(
                done.consumed,
                G::parse(before.rest.skip(done.consumed as int)).consumed,
            );
        }
        let item_6 = match G::decode(buffer) {
            Ok(item) => item,
            Err(error) => {
                return Err(error);
            },
        };
        proof {
            let done = <(A, B, C, D, E, F, G) as Codec>::parse(before.rest);
            <(A, B, C, D, E, F, G) as Codec>::parse_is_within(before.rest);
            before.lemma_advanced_twice(
                done.consumed,
                H::parse(before.rest.skip(done.consumed as int)).consumed,
            );
        }
        let item_7 = match H::decode(buffer) {
            Ok(item) => item,
            Err(error) => {
                return Err(error);
            },
        };
        proof {
            let done = <(A, B, C, D, E, F, G, H) as Codec>::parse(before.rest);
            <(A, B, C, D, E, F, G, H) as Codec>::parse_is_within(before.rest);
            before.lemma_advanced_twice(
                done.consumed,
                I::parse(before.rest.skip(done.consumed as int)).consumed,
            );
        }
        let item_8 = match I::decode(buffer) {
            Ok(item) => item,
            Err(error) => {
                return Err(error);
            },
        };
        proof {
            let done = <(A, B, C, D, E, F, G, H, I) as Codec>::parse(before.rest);
            <(A, B, C, D, E, F, G, H, I) as Codec>::parse_is_within(before.rest);
            before.lemma_advanced_twice(
                done.consumed,
                J::parse(before.rest.skip(done.consumed as int)).consumed,
            );
        }
        match J::decode(buffer) {
            Ok(item) => Ok((item_0, item_1, item_2, item_3, item_4, item_5, item_6, item_7, item_8, item)),
            Err(error) => Err(error),
        }
    }
}

impl<A: LosslessCodec, B: LosslessCodec, C: LosslessCodec, D: LosslessCodec, E: LosslessCodec, F: LosslessCodec, G: LosslessCodec, H: LosslessCodec, I: LosslessCodec, J: LosslessCodec> LosslessCodec for (A, B, C, D, E, F, G, H, I, J) {
    open spec fn fits(value: (A::Value, B::Value, C::Value, D::Value, E::Value, F::Value, G::Value, H::Value, I::Value, J::Value)) -> bool {
        A::fits(value.0) && B::fits(value.1) && C::fits(value.2) && D::fits(value.3) && E::fits(value.4) && F::fits(value.5) && G::fits(value.6) && H::fits(value.7) && I::fits(value.8) && J::fits(value.9)
    }

    proof fn law_round_trip(value: (A::Value, B::Value, C::Value, D::Value, E::Value, F::Value, G::Value, H::Value, I::Value, J::Value), tail: Seq<u8>) {
        let first = <(A, B, C, D, E, F, G, H, I) as Codec>::emit((value.0, value.1, value.2, value.3, value.4, value.5, value.6, value.7, value.8)).bytes;
        let last = J::emit(value.9).bytes;
        <(A, B, C, D, E, F, G, H, I) as LosslessCodec>::law_round_trip((value.0, value.1, value.2, value.3, value.4, value.5, value.6, value.7, value.8), last + tail);
        J::law_round_trip(value.9, tail);
        assert((first + last) + tail =~= first + (last + tail));
        assert((first + (last + tail)).skip(first.len() as int) =~= last + tail);
    }
}

impl<A: Codec, B: Codec, C: Codec, D: Codec, E: Codec, F: Codec, G: Codec, H: Codec, I: Codec, J: Codec, K: Codec> Codec for (A, B, C, D, E, F, G, H, I, J, K) {
    type Value = (A::Value, B::Value, C::Value, D::Value, E::Value, F::Value, G::Value, H::Value, I::Value, J::Value, K::Value);

    type Model = (A::Model, B::Model, C::Model, D::Model, E::Model, F::Model, G::Model, H::Model, I::Model, J::Model, K::Model);

    open spec fn model(value: (A::Value, B::Value, C::Value, D::Value, E::Value, F::Value, G::Value, H::Value, I::Value, J::Value, K::Value)) -> (A::Model, B::Model, C::Model, D::Model, E::Model, F::Model, G::Model, H::Model, I::Model, J::Model, K::Model) {
        (A::model(value.0), B::model(value.1), C::model(value.2), D::model(value.3), E::model(value.4), F::model(value.5), G::model(value.6), H::model(value.7), I::model(value.8), J::model(value.9), K::model(value.10))
    }

    open spec fn emit(value: (A::Value, B::Value, C::Value, D::Value, E::Value, F::Value, G::Value, H::Value, I::Value, J::Value, K::Value)) -> Emitted {
        <(A, B, C, D, E, F, G, H, I, J) as Codec>::emit((value.0, value.1, value.2, value.3, value.4, value.5, value.6, value.7, value.8, value.9)).followed_by(K::emit(value.10))
    }

    open spec fn parse(bytes: Seq<u8>) -> Parsed<(A::Model, B::Model, C::Model, D::Model, E::Model, F::Model, G::Model, H::Model, I::Model, J::Model, K::Model)> {
        let before = <(A, B, C, D, E, F, G, H, I, J) as Codec>::parse(bytes);
        match before.result {
            Ok(items) => {
                let last = K::parse(bytes.skip(before.consumed as int));
                Parsed {
                    result: match last.result {
                        Ok(item) => Ok((items.0, items.1, items.2, items.3, items.4, items.5, items.6, items.7, items.8, items.9, item)),
                        Err(error) => Err(error),
                    },
                    consumed: before.consumed + last.consumed,
                }
            },
            Err(error) => Parsed { result: Err(error), consumed: before.consumed },
        }
    }

    proof fn parse_is_within(bytes: Seq<u8>) {
        <(A, B, C, D, E, F, G, H, I, J) as Codec>::parse_is_within(bytes);
        K::parse_is_within(bytes.skip(<(A, B, C, D, E, F, G, H, I, J) as Codec>::parse(bytes).consumed as int));
    }

    fn encode(message: &(A::Value, B::Value, C::Value, D::Value, E::Value, F::Value, G::Value, H::Value, I::Value, J::Value, K::Value), buffer: &mut Buffer) -> (result: Result<(), Error>) {
        let ghost before = buffer@;
        match A::encode(&message.0, buffer) {
            Ok(_) => {},
            Err(error) => {
                return Err(error);
            },
        }
        proof {
            before.lemma_written_twice(<(A,) as Codec>::emit((message.0,)).bytes, B::emit(message.1).bytes);
        }
        match B::encode(&message.1, buffer) {
            Ok(_) => {},
            Err(error) => {
                return Err(error);
            },
        }
        proof {
            before.lemma_written_twice(<(A, B) as Codec>::emit((message.0, message.1)).bytes, C::emit(message.2).bytes);
        }
        match C::encode(&message.2, buffer) {
            Ok(_) => {},
            Err(error) => {
                return Err(error);
            },
        }
        proof {
            before.lemma_written_twice(<(A, B, C) as Codec>::emit((message.0, message.1, message.2)).bytes, D::emit(message.3).bytes);
        }
        match D::encode(&message.3, buffer) {
            Ok(_) => {},
            Err(error) => {
                return Err(error);
            },
        }
        proof {
            before.lemma_written_twice(<(A, B, C, D) as Codec>::emit((message.0, message.1, message.2, message.3)).bytes, E::emit(message.4).bytes);
        }
        match E::encode(&message.4, buffer) {
            Ok(_) => {},
            Err(error) => {
                return Err(error);
            },
        }
        proof {
            before.lemma_written_twice(<(A, B, C, D, E) as Codec>::emit((message.0, message.1, message.2, message.3, message.4)).bytes, F::emit(message.5).bytes);
        }
        match F::encode(&message.5, buffer) {
            Ok(_) => {},
            Err(error) => {
                return Err(error);
            },
        }
        proof {
            before.lemma_written_twice(<(A, B, C, D, E, F) as Codec>::emit((message.0, message.1, message.2, message.3, message.4, message.5)).bytes, G::emit(message.6).bytes);
        }
        match G::encode(&message.6, buffer) {
            Ok(_) => {},
            Err(error) => {
                return Err(error);
            },
        }
        proof {
            before.lemma_written_twice(<(A, B, C, D, E, F, G) as Codec>::emit((message.0, message.1, message.2, message.3, message.4, message.5, message.6)).bytes, H::emit(message.7).bytes);
        }
        match H::encode(&message.7, buffer) {
            Ok(_) => {},
            Err(error) => {
                return Err(error);
            },
        }
        proof {
            before.lemma_written_twice(<(A, B, C, D, E, F, G, H) as Codec>::emit((message.0, message.1, message.2, message.3, message.4, message.5, message.6, message.7)).bytes, I::emit(message.8).bytes);
        }
        match I::encode(&message.8, buffer) {
            Ok(_) => {},
            Err(error) => {
                return Err(error);
            },
        }
        proof {
            before.lemma_written_twice(<(A, B, C, D, E, F, G, H, I) as Codec>::emit((message.0, message.1, message.2, message.3, message.4, message.5, message.6, message.7, message.8)).bytes, J::emit(message.9).bytes);
        }
        match J::encode(&message.9, buffer) {
            Ok(_) => {},
            Err(error) => {
                return Err(error);
            },
        }
        proof {
            before.lemma_written_twice(<(A, B, C, D, E, F, G, H, I, J) as Codec>::emit((message.0, message.1, message.2, message.3, message.4, message.5, message.6, message.7, message.8, message.9)).bytes, K::emit(message.10).bytes);
        }
        K::encode(&message.10, buffer)
    }

    fn decode(buffer: &mut Buffer) -> (result: Result<(A::Value, B::Value, C::Value, D::Value, E::Value, F::Value, G::Value, H::Value, I::Value, J::Value, K::Value), Error>) {
        let ghost before = buffer@;
        let item_0 = match A::decode(buffer) {
            Ok(item) => item,
            Err(error) => {
                return Err(error);
            },
        };
        proof {
            let done = <(A,) as Codec>::parse(before.rest);
            <(A,) as Codec>::parse_is_within(before.rest);
            before.lemma_advanced_twice(
                done.consumed,
                B::parse(before.rest.skip(done.consumed as int)).consumed,
            );
        }
        let item_1 = match B::decode(buffer) {
            Ok(item) => item,
            Err(error) => {
                return Err(error);
            },
        };
        proof {
            let done = <(A, B) as Codec>::parse(before.rest);
            <(A, B) as Codec>::parse_is_within(before.rest);
            before.lemma_advanced_twice(
                done.consumed,
                C::parse(before.rest.skip(done.consumed as int)).consumed,
            );
        }
        let item_2 = match C::decode(buffer) {
            Ok(item) => item,
            Err(error) => {
                return Err(error);
            },
        };
        proof {
            let done = <(A, B, C) as Codec>::parse(before.rest);
            <(A, B, C) as Codec>::parse_is_within(before.rest);
            before.lemma_advanced_twice(
                done.consumed,
                D::parse(before.rest.skip(done.consumed as int)).consumed,
            );
        }
        let item_3 = match D::decode(buffer) {
            Ok(item) => item,
            Err(error) => {
                return Err(error);
            },
        };
        proof {
            let done = <(A, B, C, D) as Codec>::parse(before.rest);
            <(A, B, C, D) as Codec>::parse_is_within(before.rest);
            before.lemma_advanced_twice(
                done.consumed,
                E::parse(before.rest.skip(done.consumed as int)).consumed,
            );
        }
        let item_4 = match E::decode(buffer) {
            Ok(item) => item,
            Err(error) => {
                return Err(error);
            },
        };
        proof {
            let done = <(A, B, C, D, E) as Codec>::parse(before.rest);
            <(A, B, C, D, E) as Codec>::parse_is_within(before.rest);
            before.lemma_advanced_twice(
                done.consumed,
                F::parse(before.rest.skip(done.consumed as int)).consumed,
            );
        }
        let item_5 = match F::decode(buffer) {
            Ok(item) => item,
            Err(error) => {
                return Err(error);
            },
        };
        proof {
            let done = <(A, B, C, D, E, F) as Codec>::parse(before.rest);
            <(A, B, C, D, E, F) as Codec>::parse_is_within(before.rest);
            before.lemma_advanced_twice(
                done.consumed,
                G::parse(before.rest.skip(done.consumed as int)).consumed,
            );
        }
        let item_6 = match G::decode(buffer) {
            Ok(item) => item,
            Err(error) => {
                return Err(error);
            },
        };
        proof {
            let done = <(A, B, C, D, E, F, G) as Codec>::parse(before.rest);
            <(A, B, C, D, E, F, G) as Codec>::parse_is_within(before.rest);
            before.lemma_advanced_twice(
                done.consumed,
                H::parse(before.rest.skip(done.consumed as int)).consumed,
            );
        }
        let item_7 = match H::decode(buffer) {
            Ok(item) => item,
            Err(error) => {
                return Err(error);
            },
        };
        proof {
            let done = <(A, B, C, D, E, F, G, H) as Codec>::parse(before.rest);
            <(A, B, C, D, E, F, G, H) as Codec>::parse_is_within(before.rest);
            before.lemma_advanced_twice(
                done.consumed,
                I::parse(before.rest.skip(done.consumed as int)).consumed,
            );
        }
        let item_8 = match I::decode(buffer) {
            Ok(item) => item,
            Err(error) => {
                return Err(error);
            },
        };
        proof {
            let done = <(A, B, C, D, E, F, G, H, I) as Codec>::parse(before.rest);
            <(A, B, C, D, E, F, G, H, I) as Codec>::parse_is_within(before.rest);
            before.lemma_advanced_twice(
                done.consumed,
                J::parse(before.rest.skip(done.consumed as int)).consumed,
            );
        }
        let item_9 = match J::decode(buffer) {
            Ok(item) => item,
            Err(error) => {
                return Err(error);
            },
        };
        proof {
            let done = <(A, B, C, D, E, F, G, H, I, J) as Codec>::parse(before.rest);
            <(A, B, C, D, E, F, G, H, I, J) as Codec>::parse_is_within(before.rest);
            before.lemma_advanced_twice(
                done.consumed,
                K::parse(before.rest.skip(done.consumed as int)).consumed,
            );
        }
        match K::decode(buffer) {
            Ok(item) => Ok((item_0, item_1, item_2, item_3, item_4, item_5, item_6, item_7, item_8, item_9, item)),
            Err(error) => Err(error),
        }
    }
}

impl<A: LosslessCodec, B: LosslessCodec, C: LosslessCodec, D: LosslessCodec, E: LosslessCodec, F: LosslessCodec, G: LosslessCodec, H: LosslessCodec, I: LosslessCodec, J: LosslessCodec, K: LosslessCodec> LosslessCodec for (A, B, C, D, E, F, G, H, I, J, K) {
    open spec fn fits(value: (A::Value, B::Value, C::Value, D::Value, E::Value, F::Value, G::Value, H::Value, I::Value, J::Value, K::Value)) -> bool {
        A::fits(value.0) && B::fits(value.1) && C::fits(value.2) && D::fits(value.3) && E::fits(value.4) && F::fits(value.5) && G::fits(value.6) && H::fits(value.7) && I::fits(value.8) && J::fits(value.9) && K::fits(value.10)
    }

    proof fn law_round_trip(value: (A::Value, B::Value, C::Value, D::Value, E::Value, F::Value, G::Value, H::Value, I::Value, J::Value, K::Value), tail: Seq<u8>) {
        let first = <(A, B, C, D, E, F, G, H, I, J) as Codec>::emit((value.0, value.1, value.2, value.3, value.4, value.5, value.6, value.7, value.8, value.9)).bytes;
        let last = K::emit(value.10).bytes;
        <(A, B, C, D, E, F, G, H, I, J) as LosslessCodec>::law_round_trip((value.0, value.1, value.2, value.3, value.4, value.5, value.6, value.7, value.8, value.9), last + tail);
        K::law_round_trip(value.10, tail);
        assert((first + last) + tail =~= first + (last + tail));
        assert((first + (last + tail)).skip(first.len() as int) =~= last + tail);
    }
}

impl<A: Codec, B: Codec, C: Codec, D: Codec, E: Codec, F: Codec, G: Codec, H: Codec, I: Codec, J: Codec, K: Codec, L: Codec> Codec for (A, B, C, D, E, F, G, H, I, J, K, L) {
    type Value = (A::Value, B::Value, C::Value, D::Value, E::Value, F::Value, G::Value, H::Value, I::Value, J::Value, K::Value, L::Value);

    type Model = (A::Model, B::Model, C::Model, D::Model, E::Model, F::Model, G::Model, H::Model, I::Model, J::Model, K::Model, L::Model);

    open spec fn model(value: (A::Value, B::Value, C::Value, D::Value, E::Value, F::Value, G::Value, H::Value, I::Value, J::Value, K::Value, L::Value)) -> (A::Model, B::Model, C::Model, D::Model, E::Model, F::Model, G::Model, H::Model, I::Model, J::Model, K::Model, L::Model) {
        (A::model(value.0), B::model(value.1), C::model(value.2), D::model(value.3), E::model(value.4), F::model(value.5), G::model(value.6), H::model(value.7), I::model(value.8), J::model(value.9), K::model(value.10), L::model(value.11))
    }

    open spec fn emit(value: (A::Value, B::Value, C::Value, D::Value, E::Value, F::Value, G::Value, H::Value, I::Value, J::Value, K::Value, L::Value)) -> Emitted {
        <(A, B, C, D, E, F, G, H, I, J, K) as Codec>::emit((value.0, value.1, value.2, value.3, value.4, value.5, value.6, value.7, value.8, value.9, value.10)).followed_by(L::emit(value.11))
    }

    open spec fn parse(bytes: Seq<u8>) -> Parsed<(A::Model, B::Model, C::Model, D::Model, E::Model, F::Model, G::Model, H::Model, I::Model, J::Model, K::Model, L::Model)> {
        let before = <(A, B, C, D, E, F, G, H, I, J, K) as Codec>::parse(bytes);
        match before.result {
            Ok(items) => {
                let last = L::parse(bytes.skip(before.consumed as int));
                Parsed {
                    result: match last.result {
                        Ok(item) => Ok((items.0, items.1, items.2, items.3, items.4, items.5, items.6, items.7, items.8, items.9, items.10, item)),
                        Err(error) => Err(error),
                    },
                    consumed: before.consumed + last.consumed,
                }
            },
            Err(error) => Parsed { result: Err(error), consumed: before.consumed },
        }
    }

    proof fn parse_is_within(bytes: Seq<u8>) {
        <(A, B, C, D, E, F, G, H, I, J, K) as Codec>::parse_is_within(bytes);
        L::parse_is_within(bytes.skip(<(A, B, C, D, E, F, G, H, I, J, K) as Codec>::parse(bytes).consumed as int));
    }

    fn encode(message: &(A::Value, B::Value, C::Value, D::Value, E::Value, F::Value, G::Value, H::Value, I::Value, J::Value, K::Value, L::Value), buffer: &mut Buffer) -> (result: Result<(), Error>) {
        let ghost before = buffer@;
        match A::encode(&message.0, buffer) {
            Ok(_) => {},
            Err(error) => {
                return Err(error);
            },
        }
        proof {
            before.lemma_written_twice(<(A,) as Codec>::emit((message.0,)).bytes, B::emit(message.1).bytes);
        }
        match B::encode(&message.1, buffer) {
            Ok(_) => {},
            Err(error) => {
                return Err(error);
            },
        }
        proof {
            before.lemma_written_twice(<(A, B) as Codec>::emit((message.0, message.1)).bytes, C::emit(message.2).bytes);
        }
        match C::encode(&message.2, buffer) {
            Ok(_) => {},
            Err(error) => {
                return Err(error);
            },
        }
        proof {
            before.lemma_written_twice(<(A, B, C) as Codec>::emit((message.0, message.1, message.2)).bytes, D::emit(message.3).bytes);
        }
        match D::encode(&message.3, buffer) {
            Ok(_) => {},
            Err(error) => {
                return Err(error);
            },
        }
        proof {
            before.lemma_written_twice(<(A, B, C, D) as Codec>::emit((message.0, message.1, message.2, message.3)).bytes, E::emit(message.4).bytes);
        }
        match E::encode(&message.4, buffer) {
            Ok(_) => {},
            Err(error) => {
                return Err(error);
            },
        }
        proof {
            before.lemma_written_twice(<(A, B, C, D, E) as Codec>::emit((message.0, message.1, message.2, message.3, message.4)).bytes, F::emit(message.5).bytes);
        }
        match F::encode(&message.5, buffer) {
            Ok(_) => {},
            Err(error) => {
                return Err(error);
            },
        }
        proof {
            before.lemma_written_twice(<(A, B, C, D, E, F) as Codec>::emit((message.0, message.1, message.2, message.3, message.4, message.5)).bytes, G::emit(message.6).bytes);
        }
        match G::encode(&message.6, buffer) {
            Ok(_) => {},
            Err(error) => {
                return Err(error);
            },
        }
        proof {
            before.lemma_written_twice(<(A, B, C, D, E, F, G) as Codec>::emit((message.0, message.1, message.2, message.3, message.4, message.5, message.6)).bytes, H::emit(message.7).bytes);
        }
        match H::encode(&message.7, buffer) {
            Ok(_) => {},
            Err(error) => {
                return Err(error);
            },
        }
        proof {
            before.lemma_written_twice(<(A, B, C, D, E, F, G, H) as Codec>::emit((message.0, message.1, message.2, message.3, message.4, message.5, message.6, message.7)).bytes, I::emit(message.8).bytes);
        }
        match I::encode(&message.8, buffer) {
            Ok(_) => {},
            Err(error) => {
                return Err(error);
            },
        }
        proof {
            before.lemma_written_twice(<(A, B, C, D, E, F, G, H, I) as Codec>::emit((message.0, message.1, message.2, message.3, message.4, message.5, message.6, message.7, message.8)).bytes, J::emit(message.9).bytes);
        }
        match J::encode(&message.9, buffer) {
            Ok(_) => {},
            Err(error) => {
                return Err(error);
            },
        }
        proof {
            before.lemma_written_twice(<(A, B, C, D, E, F, G, H, I, J) as Codec>::emit((message.0, message.1, message.2, message.3, message.4, message.5, message.6, message.7, message.8, message.9)).bytes, K::emit(message.10).bytes);
        }
        match K::encode(&message.10, buffer) {
            Ok(_) => {},
            Err(error) => {
                return Err(error);
            },
        }
        proof {
            before.lemma_written_twice(<(A, B, C, D, E, F, G, H, I, J, K) as Codec>::emit((message.0, message.1, message.2, message.3, message.4, message.5, message.6, message.7, message.8, message.9, message.10)).bytes, L::emit(message.11).bytes);
        }
        L::encode(&message.11, buffer)
    }

    fn decode(buffer: &mut Buffer) -> (result: Result<(A::Value, B::Value, C::Value, D::Value, E::Value, F::Value, G::Value, H::Value, I::Value, J::Value, K::Value, L::Value), Error>) {
        let ghost before = buffer@;
        let item_0 = match A::decode(buffer) {
            Ok(item) => item,
            Err(error) => {
                return Err(error);
            },
        };
        proof {
            let done = <(A,) as Codec>::parse(before.rest);
            <(A,) as Codec>::parse_is_within(before.rest);
            before.lemma_advanced_twice(
                done.consumed,
                B::parse(before.rest.skip(done.consumed as int)).consumed,
            );
        }
        let item_1 = match B::decode(buffer) {
            Ok(item) => item,
            Err(error) => {
                return Err(error);
            },
        };
        proof {
            let done = <(A, B) as Codec>::parse(before.rest);
            <(A, B) as Codec>::parse_is_within(before.rest);
            before.lemma_advanced_twice(
                done.consumed,
                C::parse(before.rest.skip(done.consumed as int)).consumed,
            );
        }
        let item_2 = match C::decode(buffer) {
            Ok(item) => item,
            Err(error) => {
                return Err(error);
            },
        };
        proof {
            let done = <(A, B, C) as Codec>::parse(before.rest);
            <(A, B, C) as Codec>::parse_is_within(before.rest);
            before.lemma_advanced_twice(
                done.consumed,
                D::parse(before.rest.skip(done.consumed as int)).consumed,
            );
        }
        let item_3 = match D::decode(buffer) {
            Ok(item) => item,
            Err(error) => {
                return Err(error);
            },
        };
        proof {
            let done = <(A, B, C, D) as Codec>::parse(before.rest);
            <(A, B, C, D) as Codec>::parse_is_within(before.rest);
            before.lemma_advanced_twice(
                done.consumed,
                E::parse(before.rest.skip(done.consumed as int)).consumed,
            );
        }
        let item_4 = match E::decode(buffer) {
            Ok(item) => item,
            Err(error) => {
                return Err(error);
            },
        };
        proof {
            let done = <(A, B, C, D, E) as Codec>::parse(before.rest);
            <(A, B, C, D, E) as Codec>::parse_is_within(before.rest);
            before.lemma_advanced_twice(
                done.consumed,
                F::parse(before.rest.skip(done.consumed as int)).consumed,
            );
        }
        let item_5 = match F::decode(buffer) {
            Ok(item) => item,
            Err(error) => {
                return Err(error);
            },
        };
        proof {
            let done = <(A, B, C, D, E, F) as Codec>::parse(before.rest);
            <(A, B, C, D, E, F) as Codec>::parse_is_within(before.rest);
            before.lemma_advanced_twice(
                done.consumed,
                G::parse(before.rest.skip(done.consumed as int)).consumed,
            );
        }
        let item_6 = match G::decode(buffer) {
            Ok(item) => item,
            Err(error) => {
                return Err(error);
            },
        };
        proof {
            let done = <(A, B, C, D, E, F, G) as Codec>::parse(before.rest);
            <(A, B, C, D, E, F, G) as Codec>::parse_is_within(before.rest);
            before.lemma_advanced_twice(
                done.consumed,
                H::parse(before.rest.skip(done.consumed as int)).consumed,
            );
        }
        let item_7 = match H::decode(buffer) {
            Ok(item) => item,
            Err(error) => {
                return Err(error);
            },
        };
        proof {
            let done = <(A, B, C, D, E, F, G, H) as Codec>::parse(before.rest);
            <(A, B, C, D, E, F, G, H) as Codec>::parse_is_within(before.rest);
            before.lemma_advanced_twice(
                done.consumed,
                I::parse(before.rest.skip(done.consumed as int)).consumed,
            );
        }
        let item_8 = match I::decode(buffer) {
            Ok(item) => item,
            Err(error) => {
                return Err(error);
            },
        };
        proof {
            let done = <(A, B, C, D, E, F, G, H, I) as Codec>::parse(before.rest);
            <(A, B, C, D, E, F, G, H, I) as Codec>::parse_is_within(before.rest);
            before.lemma_advanced_twice(
                done.consumed,
                J::parse(before.rest.skip(done.consumed as int)).consumed,
            );
        }
        let item_9 = match J::decode(buffer) {
            Ok(item) => item,
            Err(error) => {
                return Err(error);
            },
        };
        proof {
            let done = <(A, B, C, D, E, F, G, H, I, J) as Codec>::parse(before.rest);
            <(A, B, C, D, E, F, G, H, I, J) as Codec>::parse_is_within(before.rest);
            before.lemma_advanced_twice(
                done.consumed,
                K::parse(before.rest.skip(done.consumed as int)).consumed,
            );
        }
        let item_10 = match K::decode(buffer) {
            Ok(item) => item,
            Err(error) => {
                return Err(error);
            },
        };
        proof {
            let done = <(A, B, C, D, E, F, G, H, I, J, K) as Codec>::parse(before.rest);
            <(A, B, C, D, E, F, G, H, I, J, K) as Codec>::parse_is_within(before.rest);
            before.lemma_advanced_twice(
                done.consumed,
                L::parse(before.rest.skip(done.consumed as int)).consumed,
            );
        }
        match L::decode(buffer) {
            Ok(item) => Ok((item_0, item_1, item_2, item_3, item_4, item_5, item_6, item_7, item_8, item_9, item_10, item)),
            Err(error) => Err(error),
        }
    }
}

impl<A: LosslessCodec, B: LosslessCodec, C: LosslessCodec, D: LosslessCodec, E: LosslessCodec, F: LosslessCodec, G: LosslessCodec, H: LosslessCodec, I: LosslessCodec, J: LosslessCodec, K: LosslessCodec, L: LosslessCodec> LosslessCodec for (A, B, C, D, E, F, G, H, I, J, K, L) {
    open spec fn fits(value: (A::Value, B::Value, C::Value, D::Value, E::Value, F::Value, G::Value, H::Value, I::Value, J::Value, K::Value, L::Value)) -> bool {
        A::fits(value.0) && B::fits(value.1) && C::fits(value.2) && D::fits(value.3) && E::fits(value.4) && F::fits(value.5) && G::fits(value.6) && H::fits(value.7) && I::fits(value.8) && J::fits(value.9) && K::fits(value.10) && L::fits(value.11)
    }

    proof fn law_round_trip(value: (A::Value, B::Value, C::Value, D::Value, E::Value, F::Value, G::Value, H::Value, I::Value, J::Value, K::Value, L::Value), tail: Seq<u8>) {
        let first = <(A, B, C, D, E, F, G, H, I, J, K) as Codec>::emit((value.0, value.1, value.2, value.3, value.4, value.5, value.6, value.7, value.8, value.9, value.10)).bytes;
        let last = L::emit(value.11).bytes;
        <(A, B, C, D, E, F, G, H, I, J, K) as LosslessCodec>::law_round_trip((value.0, value.1, value.2, value.3, value.4, value.5, value.6, value.7, value.8, value.9, value.10), last + tail);
        L::law_round_trip(value.11, tail);
        assert((first + last) + tail =~= first + (last + tail));
        assert((first + (last + tail)).skip(first.len() as int) =~= last + tail);
    }
}

impl<A: Codec, B: Codec, C: Codec, D: Codec, E: Codec, F: Codec, G: Codec, H: Codec, I: Codec, J: Codec, K: Codec, L: Codec, M: Codec> Codec for (A, B, C, D, E, F, G, H, I, J, K, L, M) {
    type Value = (A::Value, B::Value, C::Value, D::Value, E::Value, F::Value, G::Value, H::Value, I::Value, J::Value, K::Value, L::Value, M::Value);

    type Model = (A::Model, B::Model, C::Model, D::Model, E::Model, F::Model, G::Model, H::Model, I::Model, J::Model, K::Model, L::Model, M::Model);

    open spec fn model(value: (A::Value, B::Value, C::Value, D::Value, E::Value, F::Value, G::Value, H::Value, I::Value, J::Value, K::Value, L::Value, M::Value)) -> (A::Model, B::Model, C::Model, D::Model, E::Model, F::Model, G::Model, H::Model, I::Model, J::Model, K::Model, L::Model, M::Model) {
        (A::model(value.0), B::model(value.1), C::model(value.2), D::model(value.3), E::model(value.4), F::model(value.5), G::model(value.6), H::model(value.7), I::model(value.8), J::model(value.9), K::model(value.10), L::model(value.11), M::model(value.12))
    }

    open spec fn emit(value: (A::Value, B::Value, C::Value, D::Value, E::Value, F::Value, G::Value, H::Value, I::Value, J::Value, K::Value, L::Value, M::Value)) -> Emitted {
        <(A, B, C, D, E, F, G, H, I, J, K, L) as Codec>::emit((value.0, value.1, value.2, value.3, value.4, value.5, value.6, value.7, value.8, value.9, value.10, value.11)).followed_by(M::emit(value.12))
    }

    open spec fn parse(bytes: Seq<u8>) -> Parsed<(A::Model, B::Model, C::Model, D::Model, E::Model, F::Model, G::Model, H::Model, I::Model, J::Model, K::Model, L::Model, M::Model)> {
        let before = <(A, B, C, D, E, F, G, H, I, J, K, L) as Codec>::parse(bytes);
        match before.result {
            Ok(items) => {
                let last = M::parse(bytes.skip(before.consumed as int));
                Parsed {
                    result: match last.result {
                        Ok(item) => Ok((items.0, items.1, items.2, items.3, items.4, items.5, items.6, items.7, items.8, items.9, items.10, items.11, item)),
                        Err(error) => Err(error),
                    },
                    consumed: before.consumed + last.consumed,
                }
            },
            Err(error) => Parsed { result: Err(error), consumed: before.consumed },
        }
    }

    proof fn parse_is_within(bytes: Seq<u8>) {
        <(A, B, C, D, E, F, G, H, I, J, K, L) as Codec>::parse_is_within(bytes);
        M::parse_is_within(bytes.skip(<(A, B, C, D, E, F, G, H, I, J, K, L) as Codec>::parse(bytes).consumed as int));
    }

    fn encode(message: &(A::Value, B::Value, C::Value, D::Value, E::Value, F::Value, G::Value, H::Value, I::Value, J::Value, K::Value, L::Value, M::Value), buffer: &mut Buffer) -> (result: Result<(), Error>) {
        let ghost before = buffer@;
        match A::encode(&message.0, buffer) {
            Ok(_) => {},
            Err(error) => {
                return Err(error);
            },
        }
        proof {
            before.lemma_written_twice(<(A,) as Codec>::emit((message.0,)).bytes, B::emit(message.1).bytes);
        }
        match B::encode(&message.1, buffer) {
            Ok(_) => {},
            Err(error) => {
                return Err(error);
            },
        }
        proof {
            before.lemma_written_twice(<(A, B) as Codec>::emit((message.0, message.1)).bytes, C::emit(message.2).bytes);
        }
        match C::encode(&message.2, buffer) {
            Ok(_) => {},
            Err(error) => {
                return Err(error);
            },
        }
        proof {
            before.lemma_written_twice(<(A, B, C) as Codec>::emit((message.0, message.1, message.2)).bytes, D::emit(message.3).bytes);
        }
        match D::encode(&message.3, buffer) {
            Ok(_) => {},
            Err(error) => {
                return Err(error);
            },
        }
        proof {
            before.lemma_written_twice(<(A, B, C, D) as Codec>::emit((message.0, message.1, message.2, message.3)).bytes, E::emit(message.4).bytes);
        }
        match E::encode(&message.4, buffer) {
            Ok(_) => {},
            Err(error) => {
                return Err(error);
            },
        }
        proof {
            before.lemma_written_twice(<(A, B, C, D, E) as Codec>::emit((message.0, message.1, message.2, message.3, message.4)).bytes, F::emit(message.5).bytes);
        }
        match F::encode(&message.5, buffer) {
            Ok(_) => {},
            Err(error) => {
                return Err(error);
            },
        }
        proof {
            before.lemma_written_twice(<(A, B, C, D, E, F) as Codec>::emit((message.0, message.1, message.2, message.3, message.4, message.5)).bytes, G::emit(message.6).bytes);
        }
        match G::encode(&message.6, buffer) {
            Ok(_) => {},
            Err(error) => {
                return Err(error);
            },
        }
        proof {
            before.lemma_written_twice(<(A, B, C, D, E, F, G) as Codec>::emit((message.0, message.1, message.2, message.3, message.4, message.5, message.6)).bytes, H::emit(message.7).bytes);
        }
        match H::encode(&message.7, buffer) {
            Ok(_) => {},
            Err(error) => {
                return Err(error);
            },
        }
        proof {
            before.lemma_written_twice(<(A, B, C, D, E, F, G, H) as Codec>::emit((message.0, message.1, message.2, message.3, message.4, message.5, message.6, message.7)).bytes, I::emit(message.8).bytes);
        }
        match I::encode(&message.8, buffer) {
            Ok(_) => {},
            Err(error) => {
                return Err(error);
            },
        }
        proof {
            before.lemma_written_twice(<(A, B, C, D, E, F, G, H, I) as Codec>::emit((message.0, message.1, message.2, message.3, message.4, message.5, message.6, message.7, message.8)).bytes, J::emit(message.9).bytes);
        }
        match J::encode(&message.9, buffer) {
            Ok(_) => {},
            Err(error) => {
                return Err(error);
            },
        }
        proof {
            before.lemma_written_twice(<(A, B, C, D, E, F, G, H, I, J) as Codec>::emit((message.0, message.1, message.2, message.3, message.4, message.5, message.6, message.7, message.8, message.9)).bytes, K::emit(message.10).bytes);
        }
        match K::encode(&message.10, buffer) {
            Ok(_) => {},
            Err(error) => {
                return Err(error);
            },
        }
        proof {
            before.lemma_written_twice(<(A, B, C, D, E, F, G, H, I, J, K) as Codec>::emit((message.0, message.1, message.2, message.3, message.4, message.5, message.6, message.7, message.8, message.9, message.10)).bytes, L::emit(message.11).bytes);
        }
        match L::encode(&message.11, buffer) {
            Ok(_) => {},
            Err(error) => {
                return Err(error);
            },
        }
        proof {
            before.lemma_written_twice(<(A, B, C, D, E, F, G, H, I, J, K, L) as Codec>::emit((message.0, message.1, message.2, message.3, message.4, message.5, message.6, message.7, message.8, message.9, message.10, message.11)).bytes, M::emit(message.12).bytes);
        }
        M::encode(&message.12, buffer)
    }

    fn decode(buffer: &mut Buffer) -> (result: Result<(A::Value, B::Value, C::Value, D::Value, E::Value, F::Value, G::Value, H::Value, I::Value, J::Value, K::Value, L::Value, M::Value), Error>) {
        let ghost before = buffer@;
        let item_0 = match A::decode(buffer) {
            Ok(item) => item,
            Err(error) => {
                return Err(error);
            },
        };
        proof {
            let done = <(A,) as Codec>::parse(before.rest);
            <(A,) as Codec>::parse_is_within(before.rest);
            before.lemma_advanced_twice(
                done.consumed,
                B::parse(before.rest.skip(done.consumed as int)).consumed,
            );
        }
        let item_1 = match B::decode(buffer) {
            Ok(item) => item,
            Err(error) => {
                return Err(error);
            },
        };
        proof {
            let done = <(A, B) as Codec>::parse(before.rest);
            <(A, B) as Codec>::parse_is_within(before.rest);
            before.lemma_advanced_twice(
                done.consumed,
                C::parse(before.rest.skip(done.consumed as int)).consumed,
            );
        }
        let item_2 = match C::decode(buffer) {
            Ok(item) => item,
            Err(error) => {
                return Err(error);
            },
        };
        proof {
            let done = <(A, B, C) as Codec>::parse(before.rest);
            <(A, B, C) as Codec>::parse_is_within(before.rest);
            before.lemma_advanced_twice(
                done.consumed,
                D::parse(before.rest.skip(done.consumed as int)).consumed,
            );
        }
        let item_3 = match D::decode(buffer) {
            Ok(item) => item,
            Err(error) => {
                return Err(error);
            },
        };
        proof {
            let done = <(A, B, C, D) as Codec>::parse(before.rest);
            <(A, B, C, D) as Codec>::parse_is_within(before.rest);
            before.lemma_advanced_twice(
                done.consumed,
                E::parse(before.rest.skip(done.consumed as int)).consumed,
            );
        }
        let item_4 = match E::decode(buffer) {
            Ok(item) => item,
            Err(error) => {
                return Err(error);
            },
        };
        proof {
            let done = <(A, B, C, D, E) as Codec>::parse(before.rest);
            <(A, B, C, D, E) as Codec>::parse_is_within(before.rest);
            before.lemma_advanced_twice(
                done.consumed,
                F::parse(before.rest.skip(done.consumed as int)).consumed,
            );
        }
        let item_5 = match F::decode(buffer) {
            Ok(item) => item,
            Err(error) => {
                return Err(error);
            },
        };
        proof {
            let done = <(A, B, C, D, E, F) as Codec>::parse(before.rest);
            <(A, B, C, D, E, F) as Codec>::parse_is_within(before.rest);
            before.lemma_advanced_twice(
                done.consumed,
                G::parse(before.rest.skip(done.consumed as int)).consumed,
            );
        }
        let item_6 = match G::decode(buffer) {
            Ok(item) => item,
            Err(error) => {
                return Err(error);
            },
        };
        proof {
            let done = <(A, B, C, D, E, F, G) as Codec>::parse(before.rest);
            <(A, B, C, D, E, F, G) as Codec>::parse_is_within(before.rest);
            before.lemma_advanced_twice(
                done.consumed,
                H::parse(before.rest.skip(done.consumed as int)).consumed,
            );
        }
        let item_7 = match H::decode(buffer) {
            Ok(item) => item,
            Err(error) => {
                return Err(error);
            },
        };
        proof {
            let done = <(A, B, C, D, E, F, G, H) as Codec>::parse(before.rest);
            <(A, B, C, D, E, F, G, H) as Codec>::parse_is_within(before.rest);
            before.lemma_advanced_twice(
                done.consumed,
                I::parse(before.rest.skip(done.consumed as int)).consumed,
            );
        }
        let item_8 = match I::decode(buffer) {
            Ok(item) => item,
            Err(error) => {
                return Err(error);
            },
        };
        proof {
            let done = <(A, B, C, D, E, F, G, H, I) as Codec>::parse(before.rest);
            <(A, B, C, D, E, F, G, H, I) as Codec>::parse_is_within(before.rest);
            before.lemma_advanced_twice(
                done.consumed,
                J::parse(before.rest.skip(done.consumed as int)).consumed,
            );
        }
        let item_9 = match J::decode(buffer) {
            Ok(item) => item,
            Err(error) => {
                return Err(error);
            },
        };
        proof {
            let done = <(A, B, C, D, E, F, G, H, I, J) as Codec>::parse(before.rest);
            <(A, B, C, D, E, F, G, H, I, J) as Codec>::parse_is_within(before.rest);
            before.lemma_advanced_twice(
                done.consumed,
                K::parse(before.rest.skip(done.consumed as int)).consumed,
            );
        }
        let item_10 = match K::decode(buffer) {
            Ok(item) => item,
            Err(error) => {
                return Err(error);
            },
        };
        proof {
            let done = <(A, B, C, D, E, F, G, H, I, J, K) as Codec>::parse(before.rest);
            <(A, B, C, D, E, F, G, H, I, J, K) as Codec>::parse_is_within(before.rest);
            before.lemma_advanced_twice(
                done.consumed,
                L::parse(before.rest.skip(done.consumed as int)).consumed,
            );
        }
        let item_11 = match L::decode(buffer) {
            Ok(item) => item,
            Err(error) => {
                return Err(error);
            },
        };
        proof {
            let done = <(A, B, C, D, E, F, G, H, I, J, K, L) as Codec>::parse(before.rest);
            <(A, B, C, D, E, F, G, H, I, J, K, L) as Codec>::parse_is_within(before.rest);
            before.lemma_advanced_twice(
                done.consumed,
                M::parse(before.rest.skip(done.consumed as int)).consumed,
            );
        }
        match M::decode(buffer) {
            Ok(item) => Ok((item_0, item_1, item_2, item_3, item_4, item_5, item_6, item_7, item_8, item_9, item_10, item_11, item)),
            Err(error) => Err(error),
        }
    }
}

impl<A: LosslessCodec, B: LosslessCodec, C: LosslessCodec, D: LosslessCodec, E: LosslessCodec, F: LosslessCodec, G: LosslessCodec, H: LosslessCodec, I: LosslessCodec, J: LosslessCodec, K: LosslessCodec, L: LosslessCodec, M: LosslessCodec> LosslessCodec for (A, B, C, D, E, F, G, H, I, J, K, L, M) {
    open spec fn fits(value: (A::Value, B::Value, C::Value, D::Value, E::Value, F::Value, G::Value, H::Value, I::Value, J::Value, K::Value, L::Value, M::Value)) -> bool {
        A::fits(value.0) && B::fits(value.1) && C::fits(value.2) && D::fits(value.3) && E::fits(value.4) && F::fits(value.5) && G::fits(value.6) && H::fits(value.7) && I::fits(value.8) && J::fits(value.9) && K::fits(value.10) && L::fits(value.11) && M::fits(value.12)
    }

    proof fn law_round_trip(value: (A::Value, B::Value, C::Value, D::Value, E::Value, F::Value, G::Value, H::Value, I::Value, J::Value, K::Value, L::Value, M::Value), tail: Seq<u8>) {
        let first = <(A, B, C, D, E, F, G, H, I, J, K, L) as Codec>::emit((value.0, value.1, value.2, value.3, value.4, value.5, value.6, value.7, value.8, value.9, value.10, value.11)).bytes;
        let last = M::emit(value.12).bytes;
        <(A, B, C, D, E, F, G, H, I, J, K, L) as LosslessCodec>::law_round_trip((value.0, value.1, value.2, value.3, value.4, value.5, value.6, value.7, value.8, value.9, value.10, value.11), last + tail);
        M::law_round_trip(value.12, tail);
        assert((first + last) + tail =~= first + (last + tail));
        assert((first + (last + tail)).skip(first.len() as int) =~= last + tail);
    }
}

impl<A: Codec, B: Codec, C: Codec, D: Codec, E: Codec, F: Codec, G: Codec, H: Codec, I: Codec, J: Codec, K: Codec, L: Codec, M: Codec, N: Codec> Codec for (A, B, C, D, E, F, G, H, I, J, K, L, M, N) {
    type Value = (A::Value, B::Value, C::Value, D::Value, E::Value, F::Value, G::Value, H::Value, I::Value, J::Value, K::Value, L::Value, M::Value, N::Value);

    type Model = (A::Model, B::Model, C::Model, D::Model, E::Model, F::Model, G::Model, H::Model, I::Model, J::Model, K::Model, L::Model, M::Model, N::Model);

    open spec fn model(value: (A::Value, B::Value, C::Value, D::Value, E::Value, F::Value, G::Value, H::Value, I::Value, J::Value, K::Value, L::Value, M::Value, N::Value)) -> (A::Model, B::Model, C::Model, D::Model, E::Model, F::Model, G::Model, H::Model, I::Model, J::Model, K::Model, L::Model, M::Model, N::Model) {
        (A::model(value.0), B::model(value.1), C::model(value.2), D::model(value.3), E::model(value.4), F::model(value.5), G::model(value.6), H::model(value.7), I::model(value.8), J::model(value.9), K::model(value.10), L::model(value.11), M::model(value.12), N::model(value.13))
    }

    open spec fn emit(value: (A::Value, B::Value, C::Value, D::Value, E::Value, F::Value, G::Value, H::Value, I::Value, J::Value, K::Value, L::Value, M::Value, N::Value)) -> Emitted {
        <(A, B, C, D, E, F, G, H, I, J, K, L, M) as Codec>::emit((value.0, value.1, value.2, value.3, value.4, value.5, value.6, value.7, value.8, value.9, value.10, value.11, value.12)).followed_by(N::emit(value.13))
    }

    open spec fn parse(bytes: Seq<u8>) -> Parsed<(A::Model, B::Model, C::Model, D::Model, E::Model, F::Model, G::Model, H::Model, I::Model, J::Model, K::Model, L::Model, M::Model, N::Model)> {
        let before = <(A, B, C, D, E, F, G, H, I, J, K, L, M) as Codec>::parse(bytes);
        match before.result {
            Ok(items) => {
                let last = N::parse(bytes.skip(before.consumed as int));
                Parsed {
                    result: match last.result {
                        Ok(item) => Ok((items.0, items.1, items.2, items.3, items.4, items.5, items.6, items.7, items.8, items.9, items.10, items.11, items.12, item)),
                        Err(error) => Err(error),
                    },
                    consumed: before.consumed + last.consumed,
                }
            },
            Err(error) => Parsed { result: Err(error), consumed: before.consumed },
        }
    }

    proof fn parse_is_within(bytes: Seq<u8>) {
        <(A, B, C, D, E, F, G, H, I, J, K, L, M) as Codec>::parse_is_within(bytes);
        N::parse_is_within(bytes.skip(<(A, B, C, D, E, F, G, H, I, J, K, L, M) as Codec>::parse(bytes).consumed as int));
    }

    fn encode(message: &(A::Value, B::Value, C::Value, D::Value, E::Value, F::Value, G::Value, H::Value, I::Value, J::Value, K::Value, L::Value, M::Value, N::Value), buffer: &mut Buffer) -> (result: Result<(), Error>) {
        let ghost before = buffer@;
        match A::encode(&message.0, buffer) {
            Ok(_) => {},
            Err(error) => {
                return Err(error);
            },
        }
        proof {
            before.lemma_written_twice(<(A,) as Codec>::emit((message.0,)).bytes, B::emit(message.1).bytes);
        }
        match B::encode(&message.1, buffer) {
            Ok(_) => {},
            Err(error) => {
                return Err(error);
            },
        }
        proof {
            before.lemma_written_twice(<(A, B) as Codec>::emit((message.0, message.1)).bytes, C::emit(message.2).bytes);
        }
        match C::encode(&message.2, buffer) {
            Ok(_) => {},
            Err(error) => {
                return Err(error);
            },
        }
        proof {
            before.lemma_written_twice(<(A, B, C) as Codec>::emit((message.0, message.1, message.2)).bytes, D::emit(message.3).bytes);
        }
        match D::encode(&message.3, buffer) {
            Ok(_) => {},
            Err(error) => {
                return Err(error);
            },
        }
        proof {
            before.lemma_written_twice(<(A, B, C, D) as Codec>::emit((message.0, message.1, message.2, message.3)).bytes, E::emit(message.4).bytes);
        }
        match E::encode(&message.4, buffer) {
            Ok(_) => {},
            Err(error) => {
                return Err(error);
            },
        }
        proof {
            before.lemma_written_twice(<(A, B, C, D, E) as Codec>::emit((message.0, message.1, message.2, message.3, message.4)).bytes, F::emit(message.5).bytes);
        }
        match F::encode(&message.5, buffer) {
            Ok(_) => {},
            Err(error) => {
                return Err(error);
            },
        }
        proof {
            before.lemma_written_twice(<(A, B, C, D, E, F) as Codec>::emit((message.0, message.1, message.2, message.3, message.4, message.5)).bytes, G::emit(message.6).bytes);
        }
        match G::encode(&message.6, buffer) {
            Ok(_) => {},
            Err(error) => {
                return Err(error);
            },
        }
        proof {
            before.lemma_written_twice(<(A, B, C, D, E, F, G) as Codec>::emit((message.0, message.1, message.2, message.3, message.4, message.5, message.6)).bytes, H::emit(message.7).bytes);
        }
        match H::encode(&message.7, buffer) {
            Ok(_) => {},
            Err(error) => {
                return Err(error);
            },
        }
        proof {
            before.lemma_written_twice(<(A, B, C, D, E, F, G, H) as Codec>::emit((message.0, message.1, message.2, message.3, message.4, message.5, message.6, message.7)).bytes, I::emit(message.8).bytes);
        }
        match I::encode(&message.8, buffer) {
            Ok(_) => {},
            Err(error) => {
                return Err(error);
            },
        }
        proof {
            before.lemma_written_twice(<(A, B, C, D, E, F, G, H, I) as Codec>::emit((message.0, message.1, message.2, message.3, message.4, message.5, message.6, message.7, message.8)).bytes, J::emit(message.9).bytes);
        }
        match J::encode(&message.9, buffer) {
            Ok(_) => {},
            Err(error) => {
                return Err(error);
            },
        }
        proof {
            before.lemma_written_twice(<(A, B, C, D, E, F, G, H, I, J) as Codec>::emit((message.0, message.1, message.2, message.3, message.4, message.5, message.6, message.7, message.8, message.9)).bytes, K::emit(message.10).bytes);
        }
        match K::encode(&message.10, buffer) {
            Ok(_) => {},
            Err(error) => {
                return Err(error);
            },
        }
        proof {
            before.lemma_written_twice(<(A, B, C, D, E, F, G, H, I, J, K) as Codec>::emit((message.0, message.1, message.2, message.3, message.4, message.5, message.6, message.7, message.8, message.9, message.10)).bytes, L::emit(message.11).bytes);
        }
        match L::encode(&message.11, buffer) {
            Ok(_) => {},
            Err(error) => {
                return Err(error);
            },
        }
        proof {
            before.lemma_written_twice(<(A, B, C, D, E, F, G, H, I, J, K, L) as Codec>::emit((message.0, message.1, message.2, message.3, message.4, message.5, message.6, message.7, message.8, message.9, message.10, message.11)).bytes, M::emit(message.12).bytes);
        }
        match M::encode(&message.12, buffer) {
            Ok(_) => {},
            Err(error) => {
                return Err(error);
            },
        }
        proof {
            before.lemma_written_twice(<(A, B, C, D, E, F, G, H, I, J, K, L, M) as Codec>::emit((message.0, message.1, message.2, message.3, message.4, message.5, message.6, message.7, message.8, message.9, message.10, message.11, message.12)).bytes, N::emit(message.13).bytes);
        }
        N::encode(&message.13, buffer)
    }

    fn decode(buffer: &mut Buffer) -> (result: Result<(A::Value, B::Value, C::Value, D::Value, E::Value, F::Value, G::Value, H::Value, I::Value, J::Value, K::Value, L::Value, M::Value, N::Value), Error>) {
        let ghost before = buffer@;
        let item_0 = match A::decode(buffer) {
            Ok(item) => item,
            Err(error) => {
                return Err(error);
            },
        };
        proof {
            let done = <(A,) as Codec>::parse(before.rest);
            <(A,) as Codec>::parse_is_within(before.rest);
            before.lemma_advanced_twice(
                done.consumed,
                B::parse(before.rest.skip(done.consumed as int)).consumed,
            );
        }
        let item_1 = match B::decode(buffer) {
            Ok(item) => item,
            Err(error) => {
                return Err(error);
            },
        };
        proof {
            let done = <(A, B) as Codec>::parse(before.rest);
            <(A, B) as Codec>::parse_is_within(before.rest);
            before.lemma_advanced_twice(
                done.consumed,
                C::parse(before.rest.skip(done.consumed as int)).consumed,
            );
        }
        let item_2 = match C::decode(buffer) {
            Ok(item) => item,
            Err(error) => {
                return Err(error);
            },
        };
        proof {
            let done = <(A, B, C) as Codec>::parse(before.rest);
            <(A, B, C) as Codec>::parse_is_within(before.rest);
            before.lemma_advanced_twice(
                done.consumed,
                D::parse(before.rest.skip(done.consumed as int)).consumed,
            );
        }
        let item_3 = match D::decode(buffer) {
            Ok(item) => item,
            Err(error) => {
                return Err(error);
            },
        };
        proof {
            let done = <(A, B, C, D) as Codec>::parse(before.rest);
            <(A, B, C, D) as Codec>::parse_is_within(before.rest);
            before.lemma_advanced_twice(
                done.consumed,
                E::parse(before.rest.skip(done.consumed as int)).consumed,
            );
        }
        let item_4 = match E::decode(buffer) {
            Ok(item) => item,
            Err(error) => {
                return Err(error);
            },
        };
        proof {
            let done = <(A, B, C, D, E) as Codec>::parse(before.rest);
            <(A, B, C, D, E) as Codec>::parse_is_within(before.rest);
            before.lemma_advanced_twice(
                done.consumed,
                F::parse(before.rest.skip(done.consumed as int)).consumed,
            );
        }
        let item_5 = match F::decode(buffer) {
            Ok(item) => item,
            Err(error) => {
                return Err(error);
            },
        };
        proof {
            let done = <(A, B, C, D, E, F) as Codec>::parse(before.rest);
            <(A, B, C, D, E, F) as Codec>::parse_is_within(before.rest);
            before.lemma_advanced_twice(
                done.consumed,
                G::parse(before.rest.skip(done.consumed as int)).consumed,
            );
        }
        let item_6 = match G::decode(buffer) {
            Ok(item) => item,
            Err(error) => {
                return Err(error);
            },
        };
        proof {
            let done = <(A, B, C, D, E, F, G) as Codec>::parse(before.rest);
            <(A, B, C, D, E, F, G) as Codec>::parse_is_within(before.rest);
            before.lemma_advanced_twice(
                done.consumed,
                H::parse(before.rest.skip(done.consumed as int)).consumed,
            );
        }
        let item_7 = match H::decode(buffer) {
            Ok(item) => item,
            Err(error) => {
                return Err(error);
            },
        };
        proof {
            let done = <(A, B, C, D, E, F, G, H) as Codec>::parse(before.rest);
            <(A, B, C, D, E, F, G, H) as Codec>::parse_is_within(before.rest);
            before.lemma_advanced_twice(
                done.consumed,
                I::parse(before.rest.skip(done.consumed as int)).consumed,
            );
        }
        let item_8 = match I::decode(buffer) {
            Ok(item) => item,
            Err(error) => {
                return Err(error);
            },
        };
        proof {
            let done = <(A, B, C, D, E, F, G, H, I) as Codec>::parse(before.rest);
            <(A, B, C, D, E, F, G, H, I) as Codec>::parse_is_within(before.rest);
            before.lemma_advanced_twice(
                done.consumed,
                J::parse(before.rest.skip(done.consumed as int)).consumed,
            );
        }
        let item_9 = match J::decode(buffer) {
            Ok(item) => item,
            Err(error) => {
                return Err(error);
            },
        };
        proof {
            let done = <(A, B, C, D, E, F, G, H, I, J) as Codec>::parse(before.rest);
            <(A, B, C, D, E, F, G, H, I, J) as Codec>::parse_is_within(before.rest);
            before.lemma_advanced_twice(
                done.consumed,
                K::parse(before.rest.skip(done.consumed as int)).consumed,
            );
        }
        let item_10 = match K::decode(buffer) {
            Ok(item) => item,
            Err(error) => {
                return Err(error);
            },
        };
        proof {
            let done = <(A, B, C, D, E, F, G, H, I, J, K) as Codec>::parse(before.rest);
            <(A, B, C, D, E, F, G, H, I, J, K) as Codec>::parse_is_within(before.rest);
            before.lemma_advanced_twice(
                done.consumed,
                L::parse(before.rest.skip(done.consumed as int)).consumed,
            );
        }
        let item_11 = match L::decode(buffer) {
            Ok(item) => item,
            Err(error) => {
                return Err(error);
            },
        };
        proof {
            let done = <(A, B, C, D, E, F, G, H, I, J, K, L) as Codec>::parse(before.rest);
            <(A, B, C, D, E, F, G, H, I, J, K, L) as Codec>::parse_is_within(before.rest);
            before.lemma_advanced_twice(
                done.consumed,
                M::parse(before.rest.skip(done.consumed as int)).consumed,
            );
        }
        let item_12 = match M::decode(buffer) {
            Ok(item) => item,
            Err(error) => {
                return Err(error);
            },
        };
        proof {
            let done = <(A, B, C, D, E, F, G, H, I, J, K, L, M) as Codec>::parse(before.rest);
            <(A, B, C, D, E, F, G, H, I, J, K, L, M) as Codec>::parse_is_within(before.rest);
            before.lemma_advanced_twice(
                done.consumed,
                N::parse(before.rest.skip(done.consumed as int)).consumed,
            );
        }
        match N::decode(buffer) {
            Ok(item) => Ok((item_0, item_1, item_2, item_3, item_4, item_5, item_6, item_7, item_8, item_9, item_10, item_11, item_12, item)),
            Err(error) => Err(error),
        }
    }
}

impl<A: LosslessCodec, B: LosslessCodec, C: LosslessCodec, D: LosslessCodec, E: LosslessCodec, F: LosslessCodec, G: LosslessCodec, H: LosslessCodec, I: LosslessCodec, J: LosslessCodec, K: LosslessCodec, L: LosslessCodec, M: LosslessCodec, N: LosslessCodec> LosslessCodec for (A, B, C, D, E, F, G, H, I, J, K, L, M, N) {
    open spec fn fits(value: (A::Value, B::Value, C::Value, D::Value, E::Value, F::Value, G::Value, H::Value, I::Value, J::Value, K::Value, L::Value, M::Value, N::Value)) -> bool {
        A::fits(value.0) && B::fits(value.1) && C::fits(value.2) && D::fits(value.3) && E::fits(value.4) && F::fits(value.5) && G::fits(value.6) && H::fits(value.7) && I::fits(value.8) && J::fits(value.9) && K::fits(value.10) && L::fits(value.11) && M::fits(value.12) && N::fits(value.13)
    }

    proof fn law_round_trip(value: (A::Value, B::Value, C::Value, D::Value, E::Value, F::Value, G::Value, H::Value, I::Value, J::Value, K::Value, L::Value, M::Value, N::Value), tail: Seq<u8>) {
        let first = <(A, B, C, D, E, F, G, H, I, J, K, L, M) as Codec>::emit((value.0, value.1, value.2, value.3, value.4, value.5, value.6, value.7, value.8, value.9, value.10, value.11, value.12)).bytes;
        let last = N::emit(value.13).bytes;
        <(A, B, C, D, E, F, G, H, I, J, K, L, M) as LosslessCodec>::law_round_trip((value.0, value.1, value.2, value.3, value.4, value.5, value.6, value.7, value.8, value.9, value.10, value.11, value.12), last + tail);
        N::law_round_trip(value.13, tail);
        assert((first + last) + tail =~= first + (last + tail));
        assert((first + (last + tail)).skip(first.len() as int) =~= last + tail);
    }
}

impl<A: Codec, B: Codec, C: Codec, D: Codec, E: Codec, F: Codec, G: Codec, H: Codec, I: Codec, J: Codec, K: Codec, L: Codec, M: Codec, N: Codec, O: Codec> Codec for (A, B, C, D, E, F, G, H, I, J, K, L, M, N, O) {
    type Value = (A::Value, B::Value, C::Value, D::Value, E::Value, F::Value, G::Value, H::Value, I::Value, J::Value, K::Value, L::Value, M::Value, N::Value, O::Value);

    type Model = (A::Model, B::Model, C::Model, D::Model, E::Model, F::Model, G::Model, H::Model, I::Model, J::Model, K::Model, L::Model, M::Model, N::Model, O::Model);

    open spec fn model(value: (A::Value, B::Value, C::Value, D::Value, E::Value, F::Value, G::Value, H::Value, I::Value, J::Value, K::Value, L::Value, M::Value, N::Value, O::Value)) -> (A::Model, B::Model, C::Model, D::Model, E::Model, F::Model, G::Model, H::Model, I::Model, J::Model, K::Model, L::Model, M::Model, N::Model, O::Model) {
        (A::model(value.0), B::model(value.1), C::model(value.2), D::model(value.3), E::model(value.4), F::model(value.5), G::model(value.6), H::model(value.7), I::model(value.8), J::model(value.9), K::model(value.10), L::model(value.11), M::model(value.12), N::model(value.13), O::model(value.14))
    }

    open spec fn emit(value: (A::Value, B::Value, C::Value, D::Value, E::Value, F::Value, G::Value, H::Value, I::Value, J::Value, K::Value, L::Value, M::Value, N::Value, O::Value)) -> Emitted {
        <(A, B, C, D, E, F, G, H, I, J, K, L, M, N) as Codec>::emit((value.0, value.1, value.2, value.3, value.4, value.5, value.6, value.7, value.8, value.9, value.10, value.11, value.12, value.13)).followed_by(O::emit(value.14))
    }

    open spec fn parse(bytes: Seq<u8>) -> Parsed<(A::Model, B::Model, C::Model, D::Model, E::Model, F::Model, G::Model, H::Model, I::Model, J::Model, K::Model, L::Model, M::Model, N::Model, O::Model)> {
        let before = <(A, B, C, D, E, F, G, H, I, J, K, L, M, N) as Codec>::parse(bytes);
        match before.result {
            Ok(items) => {
                let last = O::parse(bytes.skip(before.consumed as int));
                Parsed {
                    result: match last.result {
                        Ok(item) => Ok((items.0, items.1, items.2, items.3, items.4, items.5, items.6, items.7, items.8, items.9, items.10, items.11, items.12, items.13, item)),
                        Err(error) => Err(error),
                    },
                    consumed: before.consumed + last.consumed,
                }
            },
            Err(error) => Parsed { result: Err(error), consumed: before.consumed },
        }
    }

    proof fn parse_is_within(bytes: Seq<u8>) {
        <(A, B, C, D, E, F, G, H, I, J, K, L, M, N) as Codec>::parse_is_within(bytes);
        O::parse_is_within(bytes.skip(<(A, B, C, D, E, F, G, H, I, J, K, L, M, N) as Codec>::parse(bytes).consumed as int));
    }

    fn encode(message: &(A::Value, B::Value, C::Value, D::Value, E::Value, F::Value, G::Value, H::Value, I::Value, J::Value, K::Value, L::Value, M::Value, N::Value, O::Value), buffer: &mut Buffer) -> (result: Result<(), Error>) {
        let ghost before = buffer@;
        match A::encode(&message.0, buffer) {
            Ok(_) => {},
            Err(error) => {
                return Err(error);
            },
        }
        proof {
            before.lemma_written_twice(<(A,) as Codec>::emit((message.0,)).bytes, B::emit(message.1).bytes);
        }
        match B::encode(&message.1, buffer) {
            Ok(_) => {},
            Err(error) => {
                return Err(error);
            },
        }
        proof {
            before.lemma_written_twice(<(A, B) as Codec>::emit((message.0, message.1)).bytes, C::emit(message.2).bytes);
        }
        match C::encode(&message.2, buffer) {
            Ok(_) => {},
            Err(error) => {
                return Err(error);
            },
        }
        proof {
            before.lemma_written_twice(<(A, B, C) as Codec>::emit((message.0, message.1, message.2)).bytes, D::emit(message.3).bytes);
        }
        match D::encode(&message.3, buffer) {
            Ok(_) => {},
            Err(error) => {
                return Err(error);
            },
        }
        proof {
            before.lemma_written_twice(<(A, B, C, D) as Codec>::emit((message.0, message.1, message.2, message.3)).bytes, E::emit(message.4).bytes);
        }
        match E::encode(&message.4, buffer) {
            Ok(_) => {},
            Err(error) => {
                return Err(error);
            },
        }
        proof {
            before.lemma_written_twice(<(A, B, C, D, E) as Codec>::emit((message.0, message.1, message.2, message.3, message.4)).bytes, F::emit(message.5).bytes);
        }
        match F::encode(&message.5, buffer) {
            Ok(_) => {},
            Err(error) => {
                return Err(error);
            },
        }
        proof {
            before.lemma_written_twice(<(A, B, C, D, E, F) as Codec>::emit((message.0, message.1, message.2, message.3, message.4, message.5)).bytes, G::emit(message.6).bytes);
        }
        match G::encode(&message.6, buffer) {
            Ok(_) => {},
            Err(error) => {
                return Err(error);
            },
        }
        proof {
            before.lemma_written_twice(<(A, B, C, D, E, F, G) as Codec>::emit((message.0, message.1, message.2, message.3, message.4, message.5, message.6)).bytes, H::emit(message.7).bytes);
        }
        match H::encode(&message.7, buffer) {
            Ok(_) => {},
            Err(error) => {
                return Err(error);
            },
        }
        proof {
            before.lemma_written_twice(<(A, B, C, D, E, F, G, H) as Codec>::emit((message.0, message.1, message.2, message.3, message.4, message.5, message.6, message.7)).bytes, I::emit(message.8).bytes);
        }
        match I::encode(&message.8, buffer) {
            Ok(_) => {},
            Err(error) => {
                return Err(error);
            },
        }
        proof {
            before.lemma_written_twice(<(A, B, C, D, E, F, G, H, I) as Codec>::emit((message.0, message.1, message.2, message.3, message.4, message.5, message.6, message.7, message.8)).bytes, J::emit(message.9).bytes);
        }
        match J::encode(&message.9, buffer) {
            Ok(_) => {},
            Err(error) => {
                return Err(error);
            },
        }
        proof {
            before.lemma_written_twice(<(A, B, C, D, E, F, G, H, I, J) as Codec>::emit((message.0, message.1, message.2, message.3, message.4, message.5, message.6, message.7, message.8, message.9)).bytes, K::emit(message.10).bytes);
        }
        match K::encode(&message.10, buffer) {
            Ok(_) => {},
            Err(error) => {
                return Err(error);
            },
        }
        proof {
            before.lemma_written_twice(<(A, B, C, D, E, F, G, H, I, J, K) as Codec>::emit((message.0, message.1, message.2, message.3, message.4, message.5, message.6, message.7, message.8, message.9, message.10)).bytes, L::emit(message.11).bytes);
        }
        match L::encode(&message.11, buffer) {
            Ok(_) => {},
            Err(error) => {
                return Err(error);
            },
        }
        proof {
            before.lemma_written_twice(<(A, B, C, D, E, F, G, H, I, J, K, L) as Codec>::emit((message.0, message.1, message.2, message.3, message.4, message.5, message.6, message.7, message.8, message.9, message.10, message.11)).bytes, M::emit(message.12).bytes);
        }
        match M::encode(&message.12, buffer) {
            Ok(_) => {},
            Err(error) => {
                return Err(error);
            },
        }
        proof {
            before.lemma_written_twice(<(A, B, C, D, E, F, G, H, I, J, K, L, M) as Codec>::emit((message.0, message.1, message.2, message.3, message.4, message.5, message.6, message.7, message.8, message.9, message.10, message.11, message.12)).bytes, N::emit(message.13).bytes);
        }
        match N::encode(&message.13, buffer) {
            Ok(_) => {},
            Err(error) => {
                return Err(error);
            },
        }
        proof {
            before.lemma_written_twice(<(A, B, C, D, E, F, G, H, I, J, K, L, M, N) as Codec>::emit((message.0, message.1, message.2, message.3, message.4, message.5, message.6, message.7, message.8, message.9, message.10, message.11, message.12, message.13)).bytes, O::emit(message.14).bytes);
        }
        O::encode(&message.14, buffer)
    }

    fn decode(buffer: &mut Buffer) -> (result: Result<(A::Value, B::Value, C::Value, D::Value, E::Value, F::Value, G::Value, H::Value, I::Value, J::Value, K::Value, L::Value, M::Value, N::Value, O::Value), Error>) {
        let ghost before = buffer@;
        let item_0 = match A::decode(buffer) {
            Ok(item) => item,
            Err(error) => {
                return Err(error);
            },
        };
        proof {
            let done = <(A,) as Codec>::parse(before.rest);
            <(A,) as Codec>::parse_is_within(before.rest);
            before.lemma_advanced_twice(
                done.consumed,
                B::parse(before.rest.skip(done.consumed as int)).consumed,
            );
        }
        let item_1 = match B::decode(buffer) {
            Ok(item) => item,
            Err(error) => {
                return Err(error);
            },
        };
        proof {
            let done = <(A, B) as Codec>::parse(before.rest);
            <(A, B) as Codec>::parse_is_within(before.rest);
            before.lemma_advanced_twice(
                done.consumed,
                C::parse(before.rest.skip(done.consumed as int)).consumed,
            );
        }
        let item_2 = match C::decode(buffer) {
            Ok(item) => item,
            Err(error) => {
                return Err(error);
            },
        };
        proof {
            let done = <(A, B, C) as Codec>::parse(before.rest);
            <(A, B, C) as Codec>::parse_is_within(before.rest);
            before.lemma_advanced_twice(
                done.consumed,
                D::parse(before.rest.skip(done.consumed as int)).consumed,
            );
        }
        let item_3 = match D::decode(buffer) {
            Ok(item) => item,
            Err(error) => {
                return Err(error);
            },
        };
        proof {
            let done = <(A, B, C, D) as Codec>::parse(before.rest);
            <(A, B, C, D) as Codec>::parse_is_within(before.rest);
            before.lemma_advanced_twice(
                done.consumed,
                E::parse(before.rest.skip(done.consumed as int)).consumed,
            );
        }
        let item_4 = match E::decode(buffer) {
            Ok(item) => item,
            Err(error) => {
                return Err(error);
            },
        };
        proof {
            let done = <(A, B, C, D, E) as Codec>::parse(before.rest);
            <(A, B, C, D, E) as Codec>::parse_is_within(before.rest);
            before.lemma_advanced_twice(
                done.consumed,
                F::parse(before.rest.skip(done.consumed as int)).consumed,
            );
        }
        let item_5 = match F::decode(buffer) {
            Ok(item) => item,
            Err(error) => {
                return Err(error);
            },
        };
        proof {
            let done = <(A, B, C, D, E, F) as Codec>::parse(before.rest);
            <(A, B, C, D, E, F) as Codec>::parse_is_within(before.rest);
            before.lemma_advanced_twice(
                done.consumed,
                G::parse(before.rest.skip(done.consumed as int)).consumed,
            );
        }
        let item_6 = match G::decode(buffer) {
            Ok(item) => item,
            Err(error) => {
                return Err(error);
            },
        };
        proof {
            let done = <(A, B, C, D, E, F, G) as Codec>::parse(before.rest);
            <(A, B, C, D, E, F, G) as Codec>::parse_is_within(before.rest);
            before.lemma_advanced_twice(
                done.consumed,
                H::parse(before.rest.skip(done.consumed as int)).consumed,
            );
        }
        let item_7 = match H::decode(buffer) {
            Ok(item) => item,
            Err(error) => {
                return Err(error);
            },
        };
        proof {
            let done = <(A, B, C, D, E, F, G, H) as Codec>::parse(before.rest);
            <(A, B, C, D, E, F, G, H) as Codec>::parse_is_within(before.rest);
            before.lemma_advanced_twice(
                done.consumed,
                I::parse(before.rest.skip(done.consumed as int)).consumed,
            );
        }
        let item_8 = match I::decode(buffer) {
            Ok(item) => item,
            Err(error) => {
                return Err(error);
            },
        };
        proof {
            let done = <(A, B, C, D, E, F, G, H, I) as Codec>::parse(before.rest);
            <(A, B, C, D, E, F, G, H, I) as Codec>::parse_is_within(before.rest);
            before.lemma_advanced_twice(
                done.consumed,
                J::parse(before.rest.skip(done.consumed as int)).consumed,
            );
        }
        let item_9 = match J::decode(buffer) {
            Ok(item) => item,
            Err(error) => {
                return Err(error);
            },
        };
        proof {
            let done = <(A, B, C, D, E, F, G, H, I, J) as Codec>::parse(before.rest);
            <(A, B, C, D, E, F, G, H, I, J) as Codec>::parse_is_within(before.rest);
            before.lemma_advanced_twice(
                done.consumed,
                K::parse(before.rest.skip(done.consumed as int)).consumed,
            );
        }
        let item_10 = match K::decode(buffer) {
            Ok(item) => item,
            Err(error) => {
                return Err(error);
            },
        };
        proof {
            let done = <(A, B, C, D, E, F, G, H, I, J, K) as Codec>::parse(before.rest);
            <(A, B, C, D, E, F, G, H, I, J, K) as Codec>::parse_is_within(before.rest);
            before.lemma_advanced_twice(
                done.consumed,
                L::parse(before.rest.skip(done.consumed as int)).consumed,
            );
        }
        let item_11 = match L::decode(buffer) {
            Ok(item) => item,
            Err(error) => {
                return Err(error);
            },
        };
        proof {
            let done = <(A, B, C, D, E, F, G, H, I, J, K, L) as Codec>::parse(before.rest);
            <(A, B, C, D, E, F, G, H, I, J, K, L) as Codec>::parse_is_within(before.rest);
            before.lemma_advanced_twice(
                done.consumed,
                M::parse(before.rest.skip(done.consumed as int)).consumed,
            );
        }
        let item_12 = match M::decode(buffer) {
            Ok(item) => item,
            Err(error) => {
                return Err(error);
            },
        };
        proof {
            let done = <(A, B, C, D, E, F, G, H, I, J, K, L, M) as Codec>::parse(before.rest);
            <(A, B, C, D, E, F, G, H, I, J, K, L, M) as Codec>::parse_is_within(before.rest);
            before.lemma_advanced_twice(
                done.consumed,
                N::parse(before.rest.skip(done.consumed as int)).consumed,
            );
        }
        let item_13 = match N::decode(buffer) {
            Ok(item) => item,
            Err(error) => {
                return Err(error);
            },
        };
        proof {
            let done = <(A, B, C, D, E, F, G, H, I, J, K, L, M, N) as Codec>::parse(before.rest);
            <(A, B, C, D, E, F, G, H, I, J, K, L, M, N) as Codec>::parse_is_within(before.rest);
            before.lemma_advanced_twice(
                done.consumed,
                O::parse(before.rest.skip(done.consumed as int)).consumed,
            );
        }
        match O::decode(buffer) {
            Ok(item) => Ok((item_0, item_1, item_2, item_3, item_4, item_5, item_6, item_7, item_8, item_9, item_10, item_11, item_12, item_13, item)),
            Err(error) => Err(error),
        }
    }
}

impl<A: LosslessCodec, B: LosslessCodec, C: LosslessCodec, D: LosslessCodec, E: LosslessCodec, F: LosslessCodec, G: LosslessCodec, H: LosslessCodec, I: LosslessCodec, J: LosslessCodec, K: LosslessCodec, L: LosslessCodec, M: LosslessCodec, N: LosslessCodec, O: LosslessCodec> LosslessCodec for (A, B, C, D, E, F, G, H, I, J, K, L, M, N, O) {
    open spec fn fits(value: (A::Value, B::Value, C::Value, D::Value, E::Value, F::Value, G::Value, H::Value, I::Value, J::Value, K::Value, L::Value, M::Value, N::Value, O::Value)) -> bool {
        A::fits(value.0) && B::fits(value.1) && C::fits(value.2) && D::fits(value.3) && E::fits(value.4) && F::fits(value.5) && G::fits(value.6) && H::fits(value.7) && I::fits(value.8) && J::fits(value.9) && K::fits(value.10) && L::fits(value.11) && M::fits(value.12) && N::fits(value.13) && O::fits(value.14)
    }

    proof fn law_round_trip(value: (A::Value, B::Value, C::Value, D::Value, E::Value, F::Value, G::Value, H::Value, I::Value, J::Value, K::Value, L::Value, M::Value, N::Value, O::Value), tail: Seq<u8>) {
        let first = <(A, B, C, D, E, F, G, H, I, J, K, L, M, N) as Codec>::emit((value.0, value.1, value.2, value.3, value.4, value.5, value.6, value.7, value.8, value.9, value.10, value.11, value.12, value.13)).bytes;
        let last = O::emit(value.14).bytes;
        <(A, B, C, D, E, F, G, H, I, J, K, L, M, N) as LosslessCodec>::law_round_trip((value.0, value.1, value.2, value.3, value.4, value.5, value.6, value.7, value.8, value.9, value.10, value.11, value.12, value.13), last + tail);
        O::law_round_trip(value.14, tail);
        assert((first + last) + tail =~= first + (last + tail));
        assert((first + (last + tail)).skip(first.len() as int) =~= last + tail);
    }
}

impl<A: Codec, B: Codec, C: Codec, D: Codec, E: Codec, F: Codec, G: Codec, H: Codec, I: Codec, J: Codec, K: Codec, L: Codec, M: Codec, N: Codec, O: Codec, P: Codec> Codec for (A, B, C, D, E, F, G, H, I, J, K, L, M, N, O, P) {
    type Value = (A::Value, B::Value, C::Value, D::Value, E::Value, F::Value, G::Value, H::Value, I::Value, J::Value, K::Value, L::Value, M::Value, N::Value, O::Value, P::Value);

    type Model = (A::Model, B::Model, C::Model, D::Model, E::Model, F::Model, G::Model, H::Model, I::Model, J::Model, K::Model, L::Model, M::Model, N::Model, O::Model, P::Model);

    open spec fn model(value: (A::Value, B::Value, C::Value, D::Value, E::Value, F::Value, G::Value, H::Value, I::Value, J::Value, K::Value, L::Value, M::Value, N::Value, O::Value, P::Value)) -> (A::Model, B::Model, C::Model, D::Model, E::Model, F::Model, G::Model, H::Model, I::Model, J::Model, K::Model, L::Model, M::Model, N::Model, O::Model, P::Model) {
        (A::model(value.0), B::model(value.1), C::model(value.2), D::model(value.3), E::model(value.4), F::model(value.5), G::model(value.6), H::model(value.7), I::model(value.8), J::model(value.9), K::model(value.10), L::model(value.11), M::model(value.12), N::model(value.13), O::model(value.14), P::model(value.15))
    }

    open spec fn emit(value: (A::Value, B::Value, C::Value, D::Value, E::Value, F::Value, G::Value, H::Value, I::Value, J::Value, K::Value, L::Value, M::Value, N::Value, O::Value, P::Value)) -> Emitted {
        <(A, B, C, D, E, F, G, H, I, J, K, L, M, N, O) as Codec>::emit((value.0, value.1, value.2, value.3, value.4, value.5, value.6, value.7, value.8, value.9, value.10, value.11, value.12, value.13, value.14)).followed_by(P::emit(value.15))
    }

    open spec fn parse(bytes: Seq<u8>) -> Parsed<(A::Model, B::Model, C::Model, D::Model, E::Model, F::Model, G::Model, H::Model, I::Model, J::Model, K::Model, L::Model, M::Model, N::Model, O::Model, P::Model)> {
        let before = <(A, B, C, D, E, F, G, H, I, J, K, L, M, N, O) as Codec>::parse(bytes);
        match before.result {
            Ok(items) => {
                let last = P::parse(bytes.skip(before.consumed as int));
                Parsed {
                    result: match last.result {
                        Ok(item) => Ok((items.0, items.1, items.2, items.3, items.4, items.5, items.6, items.7, items.8, items.9, items.10, items.11, items.12, items.13, items.14, item)),
                        Err(error) => Err(error),
                    },
                    consumed: before.consumed + last.consumed,
                }
            },
            Err(error) => Parsed { result: Err(error), consumed: before.consumed },
        }
    }

    proof fn parse_is_within(bytes: Seq<u8>) {
        <(A, B, C, D, E, F, G, H, I, J, K, L, M, N, O) as Codec>::parse_is_within(bytes);
        P::parse_is_within(bytes.skip(<(A, B, C, D, E, F, G, H, I, J, K, L, M, N, O) as Codec>::parse(bytes).consumed as int));
    }

    fn encode(message: &(A::Value, B::Value, C::Value, D::Value, E::Value, F::Value, G::Value, H::Value, I::Value, J::Value, K::Value, L::Value, M::Value, N::Value, O::Value, P::Value), buffer: &mut Buffer) -> (result: Result<(), Error>) {
        let ghost before = buffer@;
        match A::encode(&message.0, buffer) {
            Ok(_) => {},
            Err(error) => {
                return Err(error);
            },
        }
        proof {
            before.lemma_written_twice(<(A,) as Codec>::emit((message.0,)).bytes, B::emit(message.1).bytes);
        }
        match B::encode(&message.1, buffer) {
            Ok(_) => {},
            Err(error) => {
                return Err(error);
            },
        }
        proof {
            before.lemma_written_twice(<(A, B) as Codec>::emit((message.0, message.1)).bytes, C::emit(message.2).bytes);
        }
        match C::encode(&message.2, buffer) {
            Ok(_) => {},
            Err(error) => {
                return Err(error);
            },
        }
        proof {
            before.lemma_written_twice(<(A, B, C) as Codec>::emit((message.0, message.1, message.2)).bytes, D::emit(message.3).bytes);
        }
        match D::encode(&message.3, buffer) {
            Ok(_) => {},
            Err(error) => {
                return Err(error);
            },
        }
        proof {
            before.lemma_written_twice(<(A, B, C, D) as Codec>::emit((message.0, message.1, message.2, message.3)).bytes, E::emit(message.4).bytes);
        }
        match E::encode(&message.4, buffer) {
            Ok(_) => {},
            Err(error) => {
                return Err(error);
            },
        }
        proof {
            before.lemma_written_twice(<(A, B, C, D, E) as Codec>::emit((message.0, message.1, message.2, message.3, message.4)).bytes, F::emit(message.5).bytes);
        }
        match F::encode(&message.5, buffer) {
            Ok(_) => {},
            Err(error) => {
                return Err(error);
            },
        }
        proof {
            before.lemma_written_twice(<(A, B, C, D, E, F) as Codec>::emit((message.0, message.1, message.2, message.3, message.4, message.5)).bytes, G::emit(message.6).bytes);
        }
        match G::encode(&message.6, buffer) {
            Ok(_) => {},
            Err(error) => {
                return Err(error);
            },
        }
        proof {
            before.lemma_written_twice(<(A, B, C, D, E, F, G) as Codec>::emit((message.0, message.1, message.2, message.3, message.4, message.5, message.6)).bytes, H::emit(message.7).bytes);
        }
        match H::encode(&message.7, buffer) {
            Ok(_) => {},
            Err(error) => {
                return Err(error);
            },
        }
        proof {
            before.lemma_written_twice(<(A, B, C, D, E, F, G, H) as Codec>::emit((message.0, message.1, message.2, message.3, message.4, message.5, message.6, message.7)).bytes, I::emit(message.8).bytes);
        }
        match I::encode(&message.8, buffer) {
            Ok(_) => {},
            Err(error) => {
                return Err(error);
            },
        }
        proof {
            before.lemma_written_twice(<(A, B, C, D, E, F, G, H, I) as Codec>::emit((message.0, message.1, message.2, message.3, message.4, message.5, message.6, message.7, message.8)).bytes, J::emit(message.9).bytes);
        }
        match J::encode(&message.9, buffer) {
            Ok(_) => {},
            Err(error) => {
                return Err(error);
            },
        }
        proof {
            before.lemma_written_twice(<(A, B, C, D, E, F, G, H, I, J) as Codec>::emit((message.0, message.1, message.2, message.3, message.4, message.5, message.6, message.7, message.8, message.9)).bytes, K::emit(message.10).bytes);
        }
        match K::encode(&message.10, buffer) {
            Ok(_) => {},
            Err(error) => {
                return Err(error);
            },
        }
        proof {
            before.lemma_written_twice(<(A, B, C, D, E, F, G, H, I, J, K) as Codec>::emit((message.0, message.1, message.2, message.3, message.4, message.5, message.6, message.7, message.8, message.9, message.10)).bytes, L::emit(message.11).bytes);
        }
        match L::encode(&message.11, buffer) {
            Ok(_) => {},
            Err(error) => {
                return Err(error);
            },
        }
        proof {
            before.lemma_written_twice(<(A, B, C, D, E, F, G, H, I, J, K, L) as Codec>::emit((message.0, message.1, message.2, message.3, message.4, message.5, message.6, message.7, message.8, message.9, message.10, message.11)).bytes, M::emit(message.12).bytes);
        }
        match M::encode(&message.12, buffer) {
            Ok(_) => {},
            Err(error) => {
                return Err(error);
            },
        }
        proof {
            before.lemma_written_twice(<(A, B, C, D, E, F, G, H, I, J, K, L, M) as Codec>::emit((message.0, message.1, message.2, message.3, message.4, message.5, message.6, message.7, message.8, message.9, message.10, message.11, message.12)).bytes, N::emit(message.13).bytes);
        }
        match N::encode(&message.13, buffer) {
            Ok(_) => {},
            Err(error) => {
                return Err(error);
            },
        }
        proof {
            before.lemma_written_twice(<(A, B, C, D, E, F, G, H, I, J, K, L, M, N) as Codec>::emit((message.0, message.1, message.2, message.3, message.4, message.5, message.6, message.7, message.8, message.9, message.10, message.11, message.12, message.13)).bytes, O::emit(message.14).bytes);
        }
        match O::encode(&message.14, buffer) {
            Ok(_) => {},
            Err(error) => {
                return Err(error);
            },
        }
        proof {
            before.lemma_written_twice(<(A, B, C, D, E, F, G, H, I, J, K, L, M, N, O) as Codec>::emit((message.0, message.1, message.2, message.3, message.4, message.5, message.6, message.7, message.8, message.9, message.10, message.11, message.12, message.13, message.14)).bytes, P::emit(message.15).bytes);
        }
        P::encode(&message.15, buffer)
    }

    fn decode(buffer: &mut Buffer) -> (result: Result<(A::Value, B::Value, C::Value, D::Value, E::Value, F::Value, G::Value, H::Value, I::Value, J::Value, K::Value, L::Value, M::Value, N::Value, O::Value, P::Value), Error>) {
        let ghost before = buffer@;
        let item_0 = match A::decode(buffer) {
            Ok(item) => item,
            Err(error) => {
                return Err(error);
            },
        };
        proof {
            let done = <(A,) as Codec>::parse(before.rest);
            <(A,) as Codec>::parse_is_within(before.rest);
            before.lemma_advanced_twice(
                done.consumed,
                B::parse(before.rest.skip(done.consumed as int)).consumed,
            );
        }
        let item_1 = match B::decode(buffer) {
            Ok(item) => item,
            Err(error) => {
                return Err(error);
            },
        };
        proof {
            let done = <(A, B) as Codec>::parse(before.rest);
            <(A, B) as Codec>::parse_is_within(before.rest);
            before.lemma_advanced_twice(
                done.consumed,
                C::parse(before.rest.skip(done.consumed as int)).consumed,
            );
        }
        let item_2 = match C::decode(buffer) {
            Ok(item) => item,
            Err(error) => {
                return Err(error);
            },
        };
        proof {
            let done = <(A, B, C) as Codec>::parse(before.rest);
            <(A, B, C) as Codec>::parse_is_within(before.rest);
            before.lemma_advanced_twice(
                done.consumed,
                D::parse(before.rest.skip(done.consumed as int)).consumed,
            );
        }
        let item_3 = match D::decode(buffer) {
            Ok(item) => item,
            Err(error) => {
                return Err(error);
            },
        };
        proof {
            let done = <(A, B, C, D) as Codec>::parse(before.rest);
            <(A, B, C, D) as Codec>::parse_is_within(before.rest);
            before.lemma_advanced_twice(
                done.consumed,
                E::parse(before.rest.skip(done.consumed as int)).consumed,
            );
        }
        let item_4 = match E::decode(buffer) {
            Ok(item) => item,
            Err(error) => {
                return Err(error);
            },
        };
        proof {
            let done = <(A, B, C, D, E) as Codec>::parse(before.rest);
            <(A, B, C, D, E) as Codec>::parse_is_within(before.rest);
            before.lemma_advanced_twice(
                done.consumed,
                F::parse(before.rest.skip(done.consumed as int)).consumed,
            );
        }
        let item_5 = match F::decode(buffer) {
            Ok(item) => item,
            Err(error) => {
                return Err(error);
            },
        };
        proof {
            let done = <(A, B, C, D, E, F) as Codec>::parse(before.rest);
            <(A, B, C, D, E, F) as Codec>::parse_is_within(before.rest);
            before.lemma_advanced_twice(
                done.consumed,
                G::parse(before.rest.skip(done.consumed as int)).consumed,
            );
        }
        let item_6 = match G::decode(buffer) {
            Ok(item) => item,
            Err(error) => {
                return Err(error);
            },
        };
        proof {
            let done = <(A, B, C, D, E, F, G) as Codec>::parse(before.rest);
            <(A, B, C, D, E, F, G) as Codec>::parse_is_within(before.rest);
            before.lemma_advanced_twice(
                done.consumed,
                H::parse(before.rest.skip(done.consumed as int)).consumed,
            );
        }
        let item_7 = match H::decode(buffer) {
            Ok(item) => item,
            Err(error) => {
                return Err(error);
            },
        };
        proof {
            let done = <(A, B, C, D, E, F, G, H) as Codec>::parse(before.rest);
            <(A, B, C, D, E, F, G, H) as Codec>::parse_is_within(before.rest);
            before.lemma_advanced_twice(
                done.consumed,
                I::parse(before.rest.skip(done.consumed as int)).consumed,
            );
        }
        let item_8 = match I::decode(buffer) {
            Ok(item) => item,
            Err(error) => {
                return Err(error);
            },
        };
        proof {
            let done = <(A, B, C, D, E, F, G, H, I) as Codec>::parse(before.rest);
            <(A, B, C, D, E, F, G, H, I) as Codec>::parse_is_within(before.rest);
            before.lemma_advanced_twice(
                done.consumed,
                J::parse(before.rest.skip(done.consumed as int)).consumed,
            );
        }
        let item_9 = match J::decode(buffer) {
            Ok(item) => item,
            Err(error) => {
                return Err(error);
            },
        };
        proof {
            let done = <(A, B, C, D, E, F, G, H, I, J) as Codec>::parse(before.rest);
            <(A, B, C, D, E, F, G, H, I, J) as Codec>::parse_is_within(before.rest);
            before.lemma_advanced_twice(
                done.consumed,
                K::parse(before.rest.skip(done.consumed as int)).consumed,
            );
        }
        let item_10 = match K::decode(buffer) {
            Ok(item) => item,
            Err(error) => {
                return Err(error);
            },
        };
        proof {
            let done = <(A, B, C, D, E, F, G, H, I, J, K) as Codec>::parse(before.rest);
            <(A, B, C, D, E, F, G, H, I, J, K) as Codec>::parse_is_within(before.rest);
            before.lemma_advanced_twice(
                done.consumed,
                L::parse(before.rest.skip(done.consumed as int)).consumed,
            );
        }
        let item_11 = match L::decode(buffer) {
            Ok(item) => item,
            Err(error) => {
                return Err(error);
            },
        };
        proof {
            let done = <(A, B, C, D, E, F, G, H, I, J, K, L) as Codec>::parse(before.rest);
            <(A, B, C, D, E, F, G, H, I, J, K, L) as Codec>::parse_is_within(before.rest);
            before.lemma_advanced_twice(
                done.consumed,
                M::parse(before.rest.skip(done.consumed as int)).consumed,
            );
        }
        let item_12 = match M::decode(buffer) {
            Ok(item) => item,
            Err(error) => {
                return Err(error);
            },
        };
        proof {
            let done = <(A, B, C, D, E, F, G, H, I, J, K, L, M) as Codec>::parse(before.rest);
            <(A, B, C, D, E, F, G, H, I, J, K, L, M) as Codec>::parse_is_within(before.rest);
            before.lemma_advanced_twice(
                done.consumed,
                N::parse(before.rest.skip(done.consumed as int)).consumed,
            );
        }
        let item_13 = match N::decode(buffer) {
            Ok(item) => item,
            Err(error) => {
                return Err(error);
            },
        };
        proof {
            let done = <(A, B, C, D, E, F, G, H, I, J, K, L, M, N) as Codec>::parse(before.rest);
            <(A, B, C, D, E, F, G, H, I, J, K, L, M, N) as Codec>::parse_is_within(before.rest);
            before.lemma_advanced_twice(
                done.consumed,
                O::parse(before.rest.skip(done.consumed as int)).consumed,
            );
        }
        let item_14 = match O::decode(buffer) {
            Ok(item) => item,
            Err(error) => {
                return Err(error);
            },
        };
        proof {
            let done = <(A, B, C, D, E, F, G, H, I, J, K, L, M, N, O) as Codec>::parse(before.rest);
            <(A, B, C, D, E, F, G, H, I, J, K, L, M, N, O) as Codec>::parse_is_within(before.rest);
            before.lemma_advanced_twice(
                done.consumed,
                P::parse(before.rest.skip(done.consumed as int)).consumed,
            );
        }
        match P::decode(buffer) {
            Ok(item) => Ok((item_0, item_1, item_2, item_3, item_4, item_5, item_6, item_7, item_8, item_9, item_10, item_11, item_12, item_13, item_14, item)),
            Err(error) => Err(error),
        }
    }
}

impl<A: LosslessCodec, B: LosslessCodec, C: LosslessCodec, D: LosslessCodec, E: LosslessCodec, F: LosslessCodec, G: LosslessCodec, H: LosslessCodec, I: LosslessCodec, J: LosslessCodec, K: LosslessCodec, L: LosslessCodec, M: LosslessCodec, N: LosslessCodec, O: LosslessCodec, P: LosslessCodec> LosslessCodec for (A, B, C, D, E, F, G, H, I, J, K, L, M, N, O, P) {
    open spec fn fits(value: (A::Value, B::Value, C::Value, D::Value, E::Value, F::Value, G::Value, H::Value, I::Value, J::Value, K::Value, L::Value, M::Value, N::Value, O::Value, P::Value)) -> bool {
        A::fits(value.0) && B::fits(value.1) && C::fits(value.2) && D::fits(value.3) && E::fits(value.4) && F::fits(value.5) && G::fits(value.6) && H::fits(value.7) && I::fits(value.8) && J::fits(value.9) && K::fits(value.10) && L::fits(value.11) && M::fits(value.12) && N::fits(value.13) && O::fits(value.14) && P::fits(value.15)
    }

    proof fn law_round_trip(value: (A::Value, B::Value, C::Value, D::Value, E::Value, F::Value, G::Value, H::Value, I::Value, J::Value, K::Value, L::Value, M::Value, N::Value, O::Value, P::Value), tail: Seq<u8>) {
        let first = <(A, B, C, D, E, F, G, H, I, J, K, L, M, N, O) as Codec>::emit((value.0, value.1, value.2, value.3, value.4, value.5, value.6, value.7, value.8, value.9, value.10, value.11, value.12, value.13, value.14)).bytes;
        let last = P::emit(value.15).bytes;
        <(A, B, C, D, E, F, G, H, I, J, K, L, M, N, O) as LosslessCodec>::law_round_trip((value.0, value.1, value.2, value.3, value.4, value.5, value.6, value.7, value.8, value.9, value.10, value.11, value.12, value.13, value.14), last + tail);
        P::law_round_trip(value.15, tail);
        assert((first + last) + tail =~= first + (last + tail));
        assert((first + (last + tail)).skip(first.len() as int) =~= last + tail);
    }
}

/// Two values side by side are written from the first to the last, with nothing between them.
pub proof fn law_two_side_by_side<A: Codec, B: Codec>(a: A::Value, b: B::Value)
    requires
        A::emit(a).error is None,
        B::emit(b).error is None,
    ensures
        <(A, B) as Codec>::emit((a, b)).bytes == A::emit(a).bytes + B::emit(b).bytes,
        <(A, B) as Codec>::emit((a, b)).error is None,
{
}

/// Three values side by side are written from the first to the last, with nothing between them.
pub proof fn law_three_side_by_side<A: Codec, B: Codec, C: Codec>(a: A::Value, b: B::Value, c: C::Value)
    requires
        A::emit(a).error is None,
        B::emit(b).error is None,
        C::emit(c).error is None,
    ensures
        <(A, B, C) as Codec>::emit((a, b, c)).bytes == A::emit(a).bytes + B::emit(b).bytes + C::emit(c).bytes,
        <(A, B, C) as Codec>::emit((a, b, c)).error is None,
{
    law_two_side_by_side::<A, B>(a, b);
}

/// Four values side by side are written from the first to the last, with nothing between them.
pub proof fn law_four_side_by_side<A: Codec, B: Codec, C: Codec, D: Codec>(a: A::Value, b: B::Value, c: C::Value, d: D::Value)
    requires
        A::emit(a).error is None,
        B::emit(b).error is None,
        C::emit(c).error is None,
        D::emit(d).error is None,
    ensures
        <(A, B, C, D) as Codec>::emit((a, b, c, d)).bytes == A::emit(a).bytes + B::emit(b).bytes + C::emit(c).bytes + D::emit(d).bytes,
        <(A, B, C, D) as Codec>::emit((a, b, c, d)).error is None,
{
    law_three_side_by_side::<A, B, C>(a, b, c);
}

/// Five values side by side are written from the first to the last, with nothing between them.
pub proof fn law_five_side_by_side<A: Codec, B: Codec, C: Codec, D: Codec, E: Codec>(a: A::Value, b: B::Value, c: C::Value, d: D::Value, e: E::Value)
    requires
        A::emit(a).error is None,
        B::emit(b).error is None,
        C::emit(c).error is None,
        D::emit(d).error is None,
        E::emit(e).error is None,
    ensures
        <(A, B, C, D, E) as Codec>::emit((a, b, c, d, e)).bytes == A::emit(a).bytes + B::emit(b).bytes + C::emit(c).bytes + D::emit(d).bytes + E::emit(e).bytes,
        <(A, B, C, D, E) as Codec>::emit((a, b, c, d, e)).error is None,
{
    law_four_side_by_side::<A, B, C, D>(a, b, c, d);
}

/// Six values side by side are written from the first to the last, with nothing between them.
pub proof fn law_six_side_by_side<A: Codec, B: Codec, C: Codec, D: Codec, E: Codec, F: Codec>(a: A::Value, b: B::Value, c: C::Value, d: D::Value, e: E::Value, f: F::Value)
    requires
        A::emit(a).error is None,
        B::emit(b).error is None,
        C::emit(c).error is None,
        D::emit(d).error is None,
        E::emit(e).error is None,
        F::emit(f).error is None,
    ensures
        <(A, B, C, D, E, F) as Codec>::emit((a, b, c, d, e, f)).bytes == A::emit(a).bytes + B::emit(b).bytes + C::emit(c).bytes + D::emit(d).bytes + E::emit(e).bytes + F::emit(f).bytes,
        <(A, B, C, D, E, F) as Codec>::emit((a, b, c, d, e, f)).error is None,
{
    law_five_side_by_side::<A, B, C, D, E>(a, b, c, d, e);
}

/// Seven values side by side are written from the first to the last, with nothing between them.
pub proof fn law_seven_side_by_side<A: Codec, B: Codec, C: Codec, D: Codec, E: Codec, F: Codec, G: Codec>(a: A::Value, b: B::Value, c: C::Value, d: D::Value, e: E::Value, f: F::Value, g: G::Value)
    requires
        A::emit(a).error is None,
        B::emit(b).error is None,
        C::emit(c).error is None,
        D::emit(d).error is None,
        E::emit(e).error is None,
        F::emit(f).error is None,
        G::emit(g).error is None,
    ensures
        <(A, B, C, D, E, F, G) as Codec>::emit((a, b, c, d, e, f, g)).bytes == A::emit(a).bytes + B::emit(b).bytes + C::emit(c).bytes + D::emit(d).bytes + E::emit(e).bytes + F::emit(f).bytes + G::emit(g).bytes,
        <(A, B, C, D, E, F, G) as Codec>::emit((a, b, c, d, e, f, g)).error is None,
{
    law_six_side_by_side::<A, B, C, D, E, F>(a, b, c, d, e, f);
}

/// Eight values side by side are written from the first to the last, with nothing between them.
pub proof fn law_eight_side_by_side<A: Codec, B: Codec, C: Codec, D: Codec, E: Codec, F: Codec, G: Codec, H: Codec>(a: A::Value, b: B::Value, c: C::Value, d: D::Value, e: E::Value, f: F::Value, g: G::Value, h: H::Value)
    requires
        A::emit(a).error is None,
        B::emit(b).error is None,
        C::emit(c).error is None,
        D::emit(d).error is None,
        E::emit(e).error is None,
        F::emit(f).error is None,
        G::emit(g).error is None,
        H::emit(h).error is None,
    ensures
        <(A, B, C, D, E, F, G, H) as Codec>::emit((a, b, c, d, e, f, g, h)).bytes == A::emit(a).bytes + B::emit(b).bytes + C::emit(c).bytes + D::emit(d).bytes + E::emit(e).bytes + F::emit(f).bytes + G::emit(g).bytes + H::emit(h).bytes,
        <(A, B, C, D, E, F, G, H) as Codec>::emit((a, b, c, d, e, f, g, h)).error is None,
{
    law_seven_side_by_side::<A, B, C, D, E, F, G>(a, b, c, d, e, f, g);
}

/// Nine values side by side are written from the first to the last, with nothing between them.
pub proof fn law_nine_side_by_side<A: Codec, B: Codec, C: Codec, D: Codec, E: Codec, F: Codec, G: Codec, H: Codec, I: Codec>(a: A::Value, b: B::Value, c: C::Value, d: D::Value, e: E::Value, f: F::Value, g: G::Value, h: H::Value, i: I::Value)
    requires
        A::emit(a).error is None,
        B::emit(b).error is None,
        C::emit(c).error is None,
        D::emit(d).error is None,
        E::emit(e).error is None,
        F::emit(f).error is None,
        G::emit(g).error is None,
        H::emit(h).error is None,
        I::emit(i).error is None,
    ensures
        <(A, B, C, D, E, F, G, H, I) as Codec>::emit((a, b, c, d, e, f, g, h, i)).bytes == A::emit(a).bytes + B::emit(b).bytes + C::emit(c).bytes + D::emit(d).bytes + E::emit(e).bytes + F::emit(f).bytes + G::emit(g).bytes + H::emit(h).bytes + I::emit(i).bytes,
        <(A, B, C, D, E, F, G, H, I) as Codec>::emit((a, b, c, d, e, f, g, h, i)).error is None,
{
    law_eight_side_by_side::<A, B, C, D, E, F, G, H>(a, b, c, d, e, f, g, h);
}

/// Ten values side by side are written from the first to the last, with nothing between them.
pub proof fn law_ten_side_by_side<A: Codec, B: Codec, C: Codec, D: Codec, E: Codec, F: Codec, G: Codec, H: Codec, I: Codec, J: Codec>(a: A::Value, b: B::Value, c: C::Value, d: D::Value, e: E::Value, f: F::Value, g: G::Value, h: H::Value, i: I::Value, j: J::Value)
    requires
        A::emit(a).error is None,
        B::emit(b).error is None,
        C::emit(c).error is None,
        D::emit(d).error is None,
        E::emit(e).error is None,
        F::emit(f).error is None,
        G::emit(g).error is None,
        H::emit(h).error is None,
        I::emit(i).error is None,
        J::emit(j).error is None,
    ensures
        <(A, B, C, D, E, F, G, H, I, J) as Codec>::emit((a, b, c, d, e, f, g, h, i, j)).bytes == A::emit(a).bytes + B::emit(b).bytes + C::emit(c).bytes + D::emit(d).bytes + E::emit(e).bytes + F::emit(f).bytes + G::emit(g).bytes + H::emit(h).bytes + I::emit(i).bytes + J::emit(j).bytes,
        <(A, B, C, D, E, F, G, H, I, J) as Codec>::emit((a, b, c, d, e, f, g, h, i, j)).error is None,
{
    law_nine_side_by_side::<A, B, C, D, E, F, G, H, I>(a, b, c, d, e, f, g, h, i);
}

/// Eleven values side by side are written from the first to the last, with nothing between them.
pub proof fn law_eleven_side_by_side<A: Codec, B: Codec, C: Codec, D: Codec, E: Codec, F: Codec, G: Codec, H: Codec, I: Codec, J: Codec, K: Codec>(a: A::Value, b: B::Value, c: C::Value, d: D::Value, e: E::Value, f: F::Value, g: G::Value, h: H::Value, i: I::Value, j: J::Value, k: K::Value)
    requires
        A::emit(a).error is None,
        B::emit(b).error is None,
        C::emit(c).error is None,
        D::emit(d).error is None,
        E::emit(e).error is None,
        F::emit(f).error is None,
        G::emit(g).error is None,
        H::emit(h).error is None,
        I::emit(i).error is None,
        J::emit(j).error is None,
        K::emit(k).error is None,
    ensures
        <(A, B, C, D, E, F, G, H, I, J, K) as Codec>::emit((a, b, c, d, e, f, g, h, i, j, k)).bytes == A::emit(a).bytes + B::emit(b).bytes + C::emit(c).bytes + D::emit(d).bytes + E::emit(e).bytes + F::emit(f).bytes + G::emit(g).bytes + H::emit(h).bytes + I::emit(i).bytes + J::emit(j).bytes + K::emit(k).bytes,
        <(A, B, C, D, E, F, G, H, I, J, K) as Codec>::emit((a, b, c, d, e, f, g, h, i, j, k)).error is None,
{
    law_ten_side_by_side::<A, B, C, D, E, F, G, H, I, J>(a, b, c, d, e, f, g, h, i, j);
}

/// Twelve values side by side are written from the first to the last, with nothing between them.
pub proof fn law_twelve_side_by_side<A: Codec, B: Codec, C: Codec, D: Codec, E: Codec, F: Codec, G: Codec, H: Codec, I: Codec, J: Codec, K: Codec, L: Codec>(a: A::Value, b: B::Value, c: C::Value, d: D::Value, e: E::Value, f: F::Value, g: G::Value, h: H::Value, i: I::Value, j: J::Value, k: K::Value, l: L::Value)
    requires
        A::emit(a).error is None,
        B::emit(b).error is None,
        C::emit(c).error is None,
        D::emit(d).error is None,
        E::emit(e).error is None,
        F::emit(f).error is None,
        G::emit(g).error is None,
        H::emit(h).error is None,
        I::emit(i).error is None,
        J::emit(j).error is None,
        K::emit(k).error is None,
        L::emit(l).error is None,
    ensures
        <(A, B, C, D, E, F, G, H, I, J, K, L) as Codec>::emit((a, b, c, d, e, f, g, h, i, j, k, l)).bytes == A::emit(a).bytes + B::emit(b).bytes + C::emit(c).bytes + D::emit(d).bytes + E::emit(e).bytes + F::emit(f).bytes + G::emit(g).bytes + H::emit(h).bytes + I::emit(i).bytes + J::emit(j).bytes + K::emit(k).bytes + L::emit(l).bytes,
        <(A, B, C, D, E, F, G, H, I, J, K, L) as Codec>::emit((a, b, c, d, e, f, g, h, i, j, k, l)).error is None,
{
    law_eleven_side_by_side::<A, B, C, D, E, F, G, H, I, J, K>(a, b, c, d, e, f, g, h, i, j, k);
}

/// Thirteen values side by side are written from the first to the last, with nothing between them.
pub proof fn law_thirteen_side_by_side<A: Codec, B: Codec, C: Codec, D: Codec, E: Codec, F: Codec, G: Codec, H: Codec, I: Codec, J: Codec, K: Codec, L: Codec, M: Codec>(a: A::Value, b: B::Value, c: C::Value, d: D::Value, e: E::Value, f: F::Value, g: G::Value, h: H::Value, i: I::Value, j: J::Value, k: K::Value, l: L::Value, m: M::Value)
    requires
        A::emit(a).error is None,
        B::emit(b).error is None,
        C::emit(c).error is None,
        D::emit(d).error is None,
        E::emit(e).error is None,
        F::emit(f).error is None,
        G::emit(g).error is None,
        H::emit(h).error is None,
        I::emit(i).error is None,
        J::emit(j).error is None,
        K::emit(k).error is None,
        L::emit(l).error is None,
        M::emit(m).error is None,
    ensures
        <(A, B, C, D, E, F, G, H, I, J, K, L, M) as Codec>::emit((a, b, c, d, e, f, g, h, i, j, k, l, m)).bytes == A::emit(a).bytes + B::emit(b).bytes + C::emit(c).bytes + D::emit(d).bytes + E::emit(e).bytes + F::emit(f).bytes + G::emit(g).bytes + H::emit(h).bytes + I::emit(i).bytes + J::emit(j).bytes + K::emit(k).bytes + L::emit(l).bytes + M::emit(m).bytes,
        <(A, B, C, D, E, F, G, H, I, J, K, L, M) as Codec>::emit((a, b, c, d, e, f, g, h, i, j, k, l, m)).error is None,
{
    law_twelve_side_by_side::<A, B, C, D, E, F, G, H, I, J, K, L>(a, b, c, d, e, f, g, h, i, j, k, l);
}

/// Fourteen values side by side are written from the first to the last, with nothing between them.
pub proof fn law_fourteen_side_by_side<A: Codec, B: Codec, C: Codec, D: Codec, E: Codec, F: Codec, G: Codec, H: Codec, I: Codec, J: Codec, K: Codec, L: Codec, M: Codec, N: Codec>(a: A::Value, b: B::Value, c: C::Value, d: D::Value, e: E::Value, f: F::Value, g: G::Value, h: H::Value, i: I::Value, j: J::Value, k: K::Value, l: L::Value, m: M::Value, n: N::Value)
    requires
        A::emit(a).error is None,
        B::emit(b).error is None,
        C::emit(c).error is None,
        D::emit(d).error is None,
        E::emit(e).error is None,
        F::emit(f).error is None,
        G::emit(g).error is None,
        H::emit(h).error is None,
        I::emit(i).error is None,
        J::emit(j).error is None,
        K::emit(k).error is None,
        L::emit(l).error is None,
        M::emit(m).error is None,
        N::emit(n).error is None,
    ensures
        <(A, B, C, D, E, F, G, H, I, J, K, L, M, N) as Codec>::emit((a, b, c, d, e, f, g, h, i, j, k, l, m, n)).bytes == A::emit(a).bytes + B::emit(b).bytes + C::emit(c).bytes + D::emit(d).bytes + E::emit(e).bytes + F::emit(f).bytes + G::emit(g).bytes + H::emit(h).bytes + I::emit(i).bytes + J::emit(j).bytes + K::emit(k).bytes + L::emit(l).bytes + M::emit(m).bytes + N::emit(n).bytes,
        <(A, B, C, D, E, F, G, H, I, J, K, L, M, N) as Codec>::emit((a, b, c, d, e, f, g, h, i, j, k, l, m, n)).error is None,
{
    law_thirteen_side_by_side::<A, B, C, D, E, F, G, H, I, J, K, L, M>(a, b, c, d, e, f, g, h, i, j, k, l, m);
}

/// Fifteen values side by side are written from the first to the last, with nothing between them.
pub proof fn law_fifteen_side_by_side<A: Codec, B: Codec, C: Codec, D: Codec, E: Codec, F: Codec, G: Codec, H: Codec, I: Codec, J: Codec, K: Codec, L: Codec, M: Codec, N: Codec, O: Codec>(a: A::Value, b: B::Value, c: C::Value, d: D::Value, e: E::Value, f: F::Value, g: G::Value, h: H::Value, i: I::Value, j: J::Value, k: K::Value, l: L::Value, m: M::Value, n: N::Value, o: O::Value)
    requires
        A::emit(a).error is None,
        B::emit(b).error is None,
        C::emit(c).error is None,
        D::emit(d).error is None,
        E::emit(e).error is None,
        F::emit(f).error is None,
        G::emit(g).error is None,
        H::emit(h).error is None,
        I::emit(i).error is None,
        J::emit(j).error is None,
        K::emit(k).error is None,
        L::emit(l).error is None,
        M::emit(m).error is None,
        N::emit(n).error is None,
        O::emit(o).error is None,
    ensures
        <(A, B, C, D, E, F, G, H, I, J, K, L, M, N, O) as Codec>::emit((a, b, c, d, e, f, g, h, i, j, k, l, m, n, o)).bytes == A::emit(a).bytes + B::emit(b).bytes + C::emit(c).bytes + D::emit(d).bytes + E::emit(e).bytes + F::emit(f).bytes + G::emit(g).bytes + H::emit(h).bytes + I::emit(i).bytes + J::emit(j).bytes + K::emit(k).bytes + L::emit(l).bytes + M::emit(m).bytes + N::emit(n).bytes + O::emit(o).bytes,
        <(A, B, C, D, E, F, G, H, I, J, K, L, M, N, O) as Codec>::emit((a, b, c, d, e, f, g, h, i, j, k, l, m, n, o)).error is None,
{
    law_fourteen_side_by_side::<A, B, C, D, E, F, G, H, I, J, K, L, M, N>(a, b, c, d, e, f, g, h, i, j, k, l, m, n);
}

/// Sixteen values side by side are written from the first to the last, with nothing between them.
pub proof fn law_sixteen_side_by_side<A: Codec, B: Codec, C: Codec, D: Codec, E: Codec, F: Codec, G: Codec, H: Codec, I: Codec, J: Codec, K: Codec, L: Codec, M: Codec, N: Codec, O: Codec, P: Codec>(a: A::Value, b: B::Value, c: C::Value, d: D::Value, e: E::Value, f: F::Value, g: G::Value, h: H::Value, i: I::Value, j: J::Value, k: K::Value, l: L::Value, m: M::Value, n: N::Value, o: O::Value, p: P::Value)
    requires
        A::emit(a).error is None,
        B::emit(b).error is None,
        C::emit(c).error is None,
        D::emit(d).error is None,
        E::emit(e).error is None,
        F::emit(f).error is None,
        G::emit(g).error is None,
        H::emit(h).error is None,
        I::emit(i).error is None,
        J::emit(j).error is None,
        K::emit(k).error is None,
        L::emit(l).error is None,
        M::emit(m).error is None,
        N::emit(n).error is None,
        O::emit(o).error is None,
        P::emit(p).error is None,
    ensures
        <(A, B, C, D, E, F, G, H, I, J, K, L, M, N, O, P) as Codec>::emit((a, b, c, d, e, f, g, h, i, j, k, l, m, n, o, p)).bytes == A::emit(a).bytes + B::emit(b).bytes + C::emit(c).bytes + D::emit(d).bytes + E::emit(e).bytes + F::emit(f).bytes + G::emit(g).bytes + H::emit(h).bytes + I::emit(i).bytes + J::emit(j).bytes + K::emit(k).bytes + L::emit(l).bytes + M::emit(m).bytes + N::emit(n).bytes + O::emit(o).bytes + P::emit(p).bytes,
        <(A, B, C, D, E, F, G, H, I, J, K, L, M, N, O, P) as Codec>::emit((a, b, c, d, e, f, g, h, i, j, k, l, m, n, o, p)).error is None,
{
    law_fifteen_side_by_side::<A, B, C, D, E, F, G, H, I, J, K, L, M, N, O>(a, b, c, d, e, f, g, h, i, j, k, l, m, n, o);
}

} // verus!
