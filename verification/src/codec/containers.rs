//! Codecs for values that hold other values.

use std::collections::VecDeque;
use std::rc::Rc;
use std::sync::Arc;
use vstd::prelude::*;

use crate::buffer::Buffer;
use crate::codec::{Codec, LosslessCodec};
use crate::endian::{
    law_little_endian_round_trip, lemma_byte_powers, lemma_little_endian, little_endian,
    parse_little_endian, read_little_endian, write_little_endian,
};
use crate::error::Error;
use crate::primitive::{parse_byte, read_byte};
use crate::wire::{failure, Emitted, Parsed};

verus! {

broadcast use vstd::std_specs::vecdeque::group_vec_dequeue_axioms;

/// What writing `values` one behind the other comes to.
pub open spec fn emit_all<C: Codec>(values: Seq<C::Value>) -> Emitted
    decreases values.len(),
{
    if values.len() == 0 {
        Emitted::nothing()
    } else {
        emit_all::<C>(values.drop_last()).followed_by(C::emit(values.last()))
    }
}

/// What matters of each of `values`.
pub open spec fn models<C: Codec>(values: Seq<C::Value>) -> Seq<C::Model> {
    values.map_values(|value: C::Value| C::model(value))
}

/// What reading `count` values one behind the other comes to.
pub open spec fn parse_many<C: Codec>(bytes: Seq<u8>, count: nat) -> Parsed<Seq<C::Model>>
    decreases count,
{
    if count == 0 {
        Parsed { result: Ok(Seq::empty()), consumed: 0 }
    } else {
        let before = parse_many::<C>(bytes, (count - 1) as nat);
        match before.result {
            Ok(items) => {
                let next = C::parse(bytes.skip(before.consumed as int));
                Parsed {
                    result: match next.result {
                        Ok(item) => Ok(items.push(item)),
                        Err(error) => Err(error),
                    },
                    consumed: before.consumed + next.consumed,
                }
            },
            Err(_) => before,
        }
    }
}

/// What writing `values` behind their number comes to.
pub open spec fn emit_counted<C: Codec>(values: Seq<C::Value>) -> Emitted {
    Emitted::of(little_endian(values.len(), 8)).followed_by(emit_all::<C>(values))
}

/// What reading values behind their number comes to.
pub open spec fn parse_counted<C: Codec>(bytes: Seq<u8>) -> Parsed<Seq<C::Model>> {
    let count = parse_little_endian(bytes, 8);
    match count.result {
        Ok(number) => {
            let items = parse_many::<C>(bytes.skip(8), number);
            Parsed { result: items.result, consumed: 8 + items.consumed }
        },
        Err(error) => Parsed { result: Err(error), consumed: count.consumed },
    }
}

/// Reading many values takes no more bytes than there are, and ends at the first failure.
pub proof fn lemma_parse_many<C: Codec>(bytes: Seq<u8>, count: nat, more: nat)
    requires
        count <= more,
    ensures
        parse_many::<C>(bytes, count).consumed <= bytes.len(),
        parse_many::<C>(bytes, count).result is Err ==> parse_many::<C>(bytes, more)
            == parse_many::<C>(bytes, count),
    decreases more,
{
    if count < more {
        lemma_parse_many::<C>(bytes, count, (more - 1) as nat);
    } else if count > 0 {
        lemma_parse_many::<C>(bytes, (count - 1) as nat, (count - 1) as nat);
        let before = parse_many::<C>(bytes, (count - 1) as nat);
        C::parse_is_within(bytes.skip(before.consumed as int));
    }
}

/// Reading values behind their number takes no more bytes than there are.
pub proof fn lemma_parse_counted_is_within<C: Codec>(bytes: Seq<u8>)
    ensures
        parse_counted::<C>(bytes).consumed <= bytes.len(),
{
    let count = parse_little_endian(bytes, 8);
    match count.result {
        Ok(number) => {
            lemma_parse_many::<C>(bytes.skip(8), number, number);
        },
        Err(_) => {},
    }
}

/// Reading gives back the values that were written one behind the other.
pub proof fn law_many_round_trip<C: LosslessCodec>(values: Seq<C::Value>, tail: Seq<u8>)
    requires
        emit_all::<C>(values).error is None,
        forall|i: int| 0 <= i < values.len() ==> C::fits(#[trigger] values[i]),
    ensures
        parse_many::<C>(emit_all::<C>(values).bytes + tail, values.len()) == (Parsed {
            result: Ok::<Seq<C::Model>, Error>(models::<C>(values)),
            consumed: emit_all::<C>(values).bytes.len(),
        }),
    decreases values.len(),
{
    let all = emit_all::<C>(values).bytes + tail;
    if values.len() > 0 {
        let first = emit_all::<C>(values.drop_last());
        let last = C::emit(values.last());
        assert forall|i: int| 0 <= i < values.drop_last().len() implies C::fits(
            #[trigger] values.drop_last()[i],
        ) by {
            assert(C::fits(values[i]));
        }
        assert(C::fits(values[values.len() - 1]));
        law_many_round_trip::<C>(values.drop_last(), last.bytes + tail);
        C::law_round_trip(values.last(), tail);
        assert(all =~= first.bytes + (last.bytes + tail));
        assert(all.skip(first.bytes.len() as int) =~= last.bytes + tail);
        assert(models::<C>(values.drop_last()).push(C::model(values.last())) =~= models::<C>(
            values,
        ));
    } else {
        assert(models::<C>(values) =~= Seq::empty());
    }
}

/// Reading gives back the values that were written behind their number.
pub proof fn law_counted_round_trip<C: LosslessCodec>(values: Seq<C::Value>, tail: Seq<u8>)
    requires
        values.len() <= u64::MAX,
        emit_counted::<C>(values).error is None,
        forall|i: int| 0 <= i < values.len() ==> C::fits(#[trigger] values[i]),
    ensures
        parse_counted::<C>(emit_counted::<C>(values).bytes + tail) == (Parsed {
            result: Ok::<Seq<C::Model>, Error>(models::<C>(values)),
            consumed: emit_counted::<C>(values).bytes.len(),
        }),
{
    let items = emit_all::<C>(values).bytes;
    lemma_byte_powers();
    lemma_little_endian(values.len(), 8);
    law_little_endian_round_trip(values.len(), 8, items + tail);
    law_many_round_trip::<C>(values, tail);
    let all = emit_counted::<C>(values).bytes + tail;
    assert(all =~= little_endian(values.len(), 8) + (items + tail));
    assert(all.skip(8) =~= items + tail);
}

/// Writes how many values follow.
pub fn write_count(buffer: &mut Buffer, count: usize)
    ensures
        final(buffer)@ == old(buffer)@.written(little_endian(count as nat, 8)),
{
    write_little_endian(buffer, count as u128, 8);
}

/// Writes values one behind the other.
fn encode_slice<C: Codec>(values: &[C::Value], buffer: &mut Buffer) -> (result: Result<(), Error>)
    ensures
        final(buffer)@ == old(buffer)@.written(emit_all::<C>(values@).bytes),
        failure(result) == emit_all::<C>(values@).error,
{
    let ghost before = buffer@;
    proof {
        before.lemma_written_nothing();
        assert(values@.take(0) =~= Seq::empty());
    }
    let mut index: usize = 0;
    while index < values.len()
        invariant
            index <= values@.len(),
            before == old(buffer)@,
            emit_all::<C>(values@.take(index as int)).error is None,
            buffer@ == before.written(emit_all::<C>(values@.take(index as int)).bytes),
        decreases values@.len() - index,
    {
        proof {
            lemma_emit_all_step::<C>(values@, index as int);
            before.lemma_written_twice(
                emit_all::<C>(values@.take(index as int)).bytes,
                C::emit(values@[index as int]).bytes,
            );
        }
        match C::encode(&values[index], buffer) {
            Ok(_) => {},
            Err(error) => {
                return Err(error);
            },
        }
        index = index + 1;
    }
    assert(values@.take(index as int) =~= values@);
    Ok(())
}

/// Reads `count` values one behind the other.
fn decode_many<C: Codec>(buffer: &mut Buffer, count: u64) -> (result: Result<Vec<C::Value>, Error>)
    ensures
        final(buffer)@ == old(buffer)@.advanced(
            parse_many::<C>(old(buffer)@.rest, count as nat).consumed,
        ),
        match result {
            Ok(items) => parse_many::<C>(old(buffer)@.rest, count as nat).result == Ok::<
                Seq<C::Model>,
                Error,
            >(models::<C>(items@)),
            Err(error) => parse_many::<C>(old(buffer)@.rest, count as nat).result == Err::<
                Seq<C::Model>,
                Error,
            >(error),
        },
{
    let ghost before = buffer@;
    let mut items: Vec<C::Value> = Vec::new();
    let mut index: u64 = 0;
    proof {
        before.lemma_advanced_nothing();
        assert(models::<C>(items@) =~= Seq::empty());
    }
    while index < count
        invariant
            index <= count,
            before == old(buffer)@,
            buffer@ == before.advanced(parse_many::<C>(before.rest, index as nat).consumed),
            parse_many::<C>(before.rest, index as nat).result == Ok::<Seq<C::Model>, Error>(
                models::<C>(items@),
            ),
        decreases count - index,
    {
        let ghost done = parse_many::<C>(before.rest, index as nat);
        let ghost next = C::parse(before.rest.skip(done.consumed as int));
        proof {
            lemma_parse_many::<C>(before.rest, index as nat, index as nat);
            before.lemma_advanced_twice(done.consumed, next.consumed);
            lemma_parse_many::<C>(before.rest, (index + 1) as nat, count as nat);
        }
        match C::decode(buffer) {
            Ok(item) => {
                let ghost earlier = items@;
                items.push(item);
                assert(models::<C>(earlier).push(C::model(item)) =~= models::<C>(items@));
            },
            Err(error) => {
                return Err(error);
            },
        }
        index = index + 1;
    }
    Ok(items)
}

impl<C: Codec> Codec for Vec<C> {
    type Value = Vec<C::Value>;

    type Model = Seq<C::Model>;

    open spec fn model(value: Vec<C::Value>) -> Seq<C::Model> {
        models::<C>(value@)
    }

    open spec fn emit(value: Vec<C::Value>) -> Emitted {
        emit_counted::<C>(value@)
    }

    open spec fn parse(bytes: Seq<u8>) -> Parsed<Seq<C::Model>> {
        parse_counted::<C>(bytes)
    }

    proof fn parse_is_within(bytes: Seq<u8>) {
        lemma_parse_counted_is_within::<C>(bytes);
    }

    fn encode(message: &Vec<C::Value>, buffer: &mut Buffer) -> (result: Result<(), Error>) {
        let ghost before = buffer@;
        write_count(buffer, message.len());
        proof {
            before.lemma_written_twice(
                little_endian(message@.len(), 8),
                emit_all::<C>(message@).bytes,
            );
        }
        encode_slice::<C>(message.as_slice(), buffer)
    }

    fn decode(buffer: &mut Buffer) -> (result: Result<Vec<C::Value>, Error>) {
        let ghost before = buffer@;
        match read_little_endian(buffer, 8) {
            Ok(count) => {
                proof {
                    let items = parse_many::<C>(before.rest.skip(8), count as nat);
                    before.lemma_advanced_twice(8, items.consumed);
                }
                decode_many::<C>(buffer, count)
            },
            Err(error) => Err(error),
        }
    }
}

/// Writing one value more.
pub proof fn lemma_emit_all_step<C: Codec>(values: Seq<C::Value>, index: int)
    requires
        0 <= index < values.len(),
        emit_all::<C>(values.take(index)).error is None,
    ensures
        emit_all::<C>(values.take(index + 1)) == emit_all::<C>(values.take(index)).followed_by(
            C::emit(values[index]),
        ),
        emit_all::<C>(values.take(index + 1)).error is Some ==> emit_all::<C>(values)
            == emit_all::<C>(values.take(index + 1)),
{
    assert(values.take(index + 1).drop_last() =~= values.take(index));
    if emit_all::<C>(values.take(index + 1)).error is Some {
        lemma_emit_all_failed::<C>(values, index + 1, values.len() as int);
        assert(values.take(values.len() as int) =~= values);
    }
}

proof fn lemma_emit_all_failed<C: Codec>(values: Seq<C::Value>, index: int, end: int)
    requires
        0 <= index <= end <= values.len(),
        emit_all::<C>(values.take(index)).error is Some,
    ensures
        emit_all::<C>(values.take(end)) == emit_all::<C>(values.take(index)),
    decreases end - index,
{
    if index < end {
        lemma_emit_all_failed::<C>(values, index, end - 1);
        assert(values.take(end).drop_last() =~= values.take(end - 1));
    }
}

impl<C: LosslessCodec> LosslessCodec for Vec<C> {
    open spec fn fits(value: Vec<C::Value>) -> bool {
        value@.len() <= u64::MAX && forall|i: int|
            0 <= i < value@.len() ==> C::fits(#[trigger] value@[i])
    }

    proof fn law_round_trip(value: Vec<C::Value>, tail: Seq<u8>) {
        law_counted_round_trip::<C>(value@, tail);
    }
}

impl<C: Codec> Codec for VecDeque<C> {
    type Value = VecDeque<C::Value>;

    type Model = Seq<C::Model>;

    open spec fn model(value: VecDeque<C::Value>) -> Seq<C::Model> {
        models::<C>(value@)
    }

    open spec fn emit(value: VecDeque<C::Value>) -> Emitted {
        emit_counted::<C>(value@)
    }

    open spec fn parse(bytes: Seq<u8>) -> Parsed<Seq<C::Model>> {
        parse_counted::<C>(bytes)
    }

    proof fn parse_is_within(bytes: Seq<u8>) {
        lemma_parse_counted_is_within::<C>(bytes);
    }

    fn encode(message: &VecDeque<C::Value>, buffer: &mut Buffer) -> (result: Result<(), Error>) {
        let ghost before = buffer@;
        let ghost count = little_endian(message@.len(), 8);
        write_count(buffer, message.len());
        proof {
            before.written(count).lemma_written_nothing();
            before.lemma_written_twice(count, emit_all::<C>(message@).bytes);
            assert(message@.take(0) =~= Seq::empty());
        }
        let mut index: usize = 0;
        while index < message.len()
            invariant
                index <= message@.len(),
                before == old(buffer)@,
                count == little_endian(message@.len(), 8),
                emit_all::<C>(message@.take(index as int)).error is None,
                buffer@ == before.written(count).written(
                    emit_all::<C>(message@.take(index as int)).bytes,
                ),
                before.written(count).written(emit_all::<C>(message@).bytes) == before.written(
                    count + emit_all::<C>(message@).bytes,
                ),
            decreases message@.len() - index,
        {
            proof {
                lemma_emit_all_step::<C>(message@, index as int);
                before.written(count).lemma_written_twice(
                    emit_all::<C>(message@.take(index as int)).bytes,
                    C::emit(message@[index as int]).bytes,
                );
            }
            match C::encode(&message[index], buffer) {
                Ok(_) => {},
                Err(error) => {
                    return Err(error);
                },
            }
            index = index + 1;
        }
        assert(message@.take(index as int) =~= message@);
        Ok(())
    }

    fn decode(buffer: &mut Buffer) -> (result: Result<VecDeque<C::Value>, Error>) {
        match Vec::<C>::decode(buffer) {
            Ok(items) => {
                let ghost all = items@;
                let mut items = items;
                let mut deque: VecDeque<C::Value> = VecDeque::new();
                while items.len() > 0
                    invariant
                        items@ + deque@ =~= all,
                    decreases items@.len(),
                {
                    match items.pop() {
                        Some(item) => deque.push_front(item),
                        None => {},
                    }
                }
                assert(deque@ =~= all);
                Ok(deque)
            },
            Err(error) => Err(error),
        }
    }
}

impl<C: LosslessCodec> LosslessCodec for VecDeque<C> {
    open spec fn fits(value: VecDeque<C::Value>) -> bool {
        value@.len() <= u64::MAX && forall|i: int|
            0 <= i < value@.len() ==> C::fits(#[trigger] value@[i])
    }

    proof fn law_round_trip(value: VecDeque<C::Value>, tail: Seq<u8>) {
        law_counted_round_trip::<C>(value@, tail);
    }
}

/// `<[T; N]>::try_from` on a vector of exactly that length: the same elements in an array.
#[verifier::external_body]
pub(crate) fn array_from_vec<T, const N: usize>(items: Vec<T>) -> (result: [T; N])
    requires
        items@.len() == N,
    ensures
        result@ == items@,
{
    <[T; N]>::try_from(items).ok().unwrap()
}

impl<T: Codec, const N: usize> Codec for [T; N] {
    type Value = [T::Value; N];

    type Model = Seq<T::Model>;

    open spec fn model(value: [T::Value; N]) -> Seq<T::Model> {
        models::<T>(value@)
    }

    open spec fn emit(value: [T::Value; N]) -> Emitted {
        emit_all::<T>(value@)
    }

    open spec fn parse(bytes: Seq<u8>) -> Parsed<Seq<T::Model>> {
        parse_many::<T>(bytes, N as nat)
    }

    proof fn parse_is_within(bytes: Seq<u8>) {
        lemma_parse_many::<T>(bytes, N as nat, N as nat);
    }

    fn encode(message: &[T::Value; N], buffer: &mut Buffer) -> (result: Result<(), Error>) {
        encode_slice::<T>(vstd::array::array_as_slice(message), buffer)
    }

    fn decode(buffer: &mut Buffer) -> (result: Result<[T::Value; N], Error>) {
        let ghost bytes = buffer@.rest;
        match decode_many::<T>(buffer, N as u64) {
            Ok(items) => {
                proof {
                    lemma_parse_many_length::<T>(bytes, N as nat);
                }
                Ok(array_from_vec(items))
            },
            Err(error) => Err(error),
        }
    }
}

proof fn lemma_parse_many_length<C: Codec>(bytes: Seq<u8>, count: nat)
    ensures
        parse_many::<C>(bytes, count).result matches Ok(items) ==> items.len() == count,
    decreases count,
{
    if count > 0 {
        lemma_parse_many_length::<C>(bytes, (count - 1) as nat);
    }
}

impl<T: LosslessCodec, const N: usize> LosslessCodec for [T; N] {
    open spec fn fits(value: [T::Value; N]) -> bool {
        forall|i: int| 0 <= i < value@.len() ==> T::fits(#[trigger] value@[i])
    }

    proof fn law_round_trip(value: [T::Value; N], tail: Seq<u8>) {
        law_many_round_trip::<T>(value@, tail);
        assert(value@.len() == N);
    }
}

/// What writing a flag comes to.
pub open spec fn emit_flag(flag: u8) -> Emitted {
    Emitted::of(seq![flag])
}

impl<T: Codec> Codec for Option<T> {
    type Value = Option<T::Value>;

    type Model = Option<T::Model>;

    open spec fn model(value: Option<T::Value>) -> Option<T::Model> {
        match value {
            Some(inner) => Some(T::model(inner)),
            None => None,
        }
    }

    /// A flag, and behind it the value if there is one.
    open spec fn emit(value: Option<T::Value>) -> Emitted {
        match value {
            Some(inner) => emit_flag(1).followed_by(T::emit(inner)),
            None => emit_flag(0),
        }
    }

    /// A value behind the flag one, and none behind any other.
    open spec fn parse(bytes: Seq<u8>) -> Parsed<Option<T::Model>> {
        let flag = parse_byte(bytes);
        match flag.result {
            Ok(byte) => if byte == 1 {
                let inner = T::parse(bytes.skip(1));
                Parsed {
                    result: match inner.result {
                        Ok(value) => Ok(Some(value)),
                        Err(error) => Err(error),
                    },
                    consumed: 1 + inner.consumed,
                }
            } else {
                Parsed { result: Ok(None), consumed: 1 }
            },
            Err(error) => Parsed { result: Err(error), consumed: flag.consumed },
        }
    }

    proof fn parse_is_within(bytes: Seq<u8>) {
        if bytes.len() > 0 {
            T::parse_is_within(bytes.skip(1));
        }
    }

    fn encode(message: &Option<T::Value>, buffer: &mut Buffer) -> (result: Result<(), Error>) {
        let ghost before = buffer@;
        match message {
            Some(value) => {
                buffer.write_byte(1);
                proof {
                    before.lemma_written_twice(seq![1u8], T::emit(*value).bytes);
                }
                T::encode(value, buffer)
            },
            None => {
                buffer.write_byte(0);
                Ok(())
            },
        }
    }

    fn decode(buffer: &mut Buffer) -> (result: Result<Option<T::Value>, Error>) {
        let ghost before = buffer@;
        match read_byte(buffer) {
            Ok(flag) => if flag == 1 {
                proof {
                    before.lemma_advanced_twice(1, T::parse(before.rest.skip(1)).consumed);
                }
                match T::decode(buffer) {
                    Ok(value) => Ok(Some(value)),
                    Err(error) => Err(error),
                }
            } else {
                Ok(None)
            },
            Err(error) => Err(error),
        }
    }
}

impl<T: LosslessCodec> LosslessCodec for Option<T> {
    open spec fn fits(value: Option<T::Value>) -> bool {
        value matches Some(inner) ==> T::fits(inner)
    }

    proof fn law_round_trip(value: Option<T::Value>, tail: Seq<u8>) {
        let all = <Option<T> as Codec>::emit(value).bytes + tail;
        match value {
            Some(inner) => {
                T::law_round_trip(inner, tail);
                assert(all.skip(1) =~= T::emit(inner).bytes + tail);
            },
            None => {},
        }
    }
}

impl<OK: Codec, ERR: Codec> Codec for Result<OK, ERR> {
    type Value = Result<OK::Value, ERR::Value>;

    type Model = Result<OK::Model, ERR::Model>;

    open spec fn model(value: Result<OK::Value, ERR::Value>) -> Result<OK::Model, ERR::Model> {
        match value {
            Ok(inner) => Ok(OK::model(inner)),
            Err(inner) => Err(ERR::model(inner)),
        }
    }

    /// A flag, and behind it the value of the side that the flag tells.
    open spec fn emit(value: Result<OK::Value, ERR::Value>) -> Emitted {
        match value {
            Ok(inner) => emit_flag(1).followed_by(OK::emit(inner)),
            Err(inner) => emit_flag(0).followed_by(ERR::emit(inner)),
        }
    }

    /// The good side behind the flag one, and the other behind any other.
    open spec fn parse(bytes: Seq<u8>) -> Parsed<Result<OK::Model, ERR::Model>> {
        let flag = parse_byte(bytes);
        match flag.result {
            Ok(byte) => if byte == 1 {
                let inner = OK::parse(bytes.skip(1));
                Parsed {
                    result: match inner.result {
                        Ok(value) => Ok(Ok(value)),
                        Err(error) => Err(error),
                    },
                    consumed: 1 + inner.consumed,
                }
            } else {
                let inner = ERR::parse(bytes.skip(1));
                Parsed {
                    result: match inner.result {
                        Ok(value) => Ok(Err(value)),
                        Err(error) => Err(error),
                    },
                    consumed: 1 + inner.consumed,
                }
            },
            Err(error) => Parsed { result: Err(error), consumed: flag.consumed },
        }
    }

    proof fn parse_is_within(bytes: Seq<u8>) {
        if bytes.len() > 0 {
            OK::parse_is_within(bytes.skip(1));
            ERR::parse_is_within(bytes.skip(1));
        }
    }

    fn encode(message: &Result<OK::Value, ERR::Value>, buffer: &mut Buffer) -> (result: Result<
        (),
        Error,
    >) {
        let ghost before = buffer@;
        match message {
            Ok(value) => {
                buffer.write_byte(1);
                proof {
                    before.lemma_written_twice(seq![1u8], OK::emit(*value).bytes);
                }
                OK::encode(value, buffer)
            },
            Err(value) => {
                buffer.write_byte(0);
                proof {
                    before.lemma_written_twice(seq![0u8], ERR::emit(*value).bytes);
                }
                ERR::encode(value, buffer)
            },
        }
    }

    fn decode(buffer: &mut Buffer) -> (result: Result<Result<OK::Value, ERR::Value>, Error>) {
        let ghost before = buffer@;
        match read_byte(buffer) {
            Ok(flag) => if flag == 1 {
                proof {
                    before.lemma_advanced_twice(1, OK::parse(before.rest.skip(1)).consumed);
                }
                match OK::decode(buffer) {
                    Ok(value) => Ok(Ok(value)),
                    Err(error) => Err(error),
                }
            } else {
                proof {
                    before.lemma_advanced_twice(1, ERR::parse(before.rest.skip(1)).consumed);
                }
                match ERR::decode(buffer) {
                    Ok(value) => Ok(Err(value)),
                    Err(error) => Err(error),
                }
            },
            Err(error) => Err(error),
        }
    }
}

impl<OK: LosslessCodec, ERR: LosslessCodec> LosslessCodec for Result<OK, ERR> {
    open spec fn fits(value: Result<OK::Value, ERR::Value>) -> bool {
        match value {
            Ok(inner) => OK::fits(inner),
            Err(inner) => ERR::fits(inner),
        }
    }

    proof fn law_round_trip(value: Result<OK::Value, ERR::Value>, tail: Seq<u8>) {
        let all = <Result<OK, ERR> as Codec>::emit(value).bytes + tail;
        match value {
            Ok(inner) => {
                OK::law_round_trip(inner, tail);
                assert(all.skip(1) =~= OK::emit(inner).bytes + tail);
            },
            Err(inner) => {
                ERR::law_round_trip(inner, tail);
                assert(all.skip(1) =~= ERR::emit(inner).bytes + tail);
            },
        }
    }
}
impl<C: Codec> Codec for Box<C> {
    type Value = Box<C::Value>;

    type Model = C::Model;

    open spec fn model(value: Box<C::Value>) -> C::Model {
        C::model(*value)
    }

    open spec fn emit(value: Box<C::Value>) -> Emitted {
        C::emit(*value)
    }

    open spec fn parse(bytes: Seq<u8>) -> Parsed<C::Model> {
        C::parse(bytes)
    }

    proof fn parse_is_within(bytes: Seq<u8>) {
        C::parse_is_within(bytes);
    }

    fn encode(message: &Box<C::Value>, buffer: &mut Buffer) -> (result: Result<(), Error>) {
        C::encode(&**message, buffer)
    }

    fn decode(buffer: &mut Buffer) -> (result: Result<Box<C::Value>, Error>) {
        match C::decode(buffer) {
            Ok(value) => Ok(Box::new(value)),
            Err(error) => Err(error),
        }
    }
}

impl<C: LosslessCodec> LosslessCodec for Box<C> {
    open spec fn fits(value: Box<C::Value>) -> bool {
        C::fits(*value)
    }

    proof fn law_round_trip(value: Box<C::Value>, tail: Seq<u8>) {
        C::law_round_trip(*value, tail);
    }
}

impl<C: Codec> Codec for Rc<C> {
    type Value = Rc<C::Value>;

    type Model = C::Model;

    open spec fn model(value: Rc<C::Value>) -> C::Model {
        C::model(*value)
    }

    open spec fn emit(value: Rc<C::Value>) -> Emitted {
        C::emit(*value)
    }

    open spec fn parse(bytes: Seq<u8>) -> Parsed<C::Model> {
        C::parse(bytes)
    }

    proof fn parse_is_within(bytes: Seq<u8>) {
        C::parse_is_within(bytes);
    }

    fn encode(message: &Rc<C::Value>, buffer: &mut Buffer) -> (result: Result<(), Error>) {
        C::encode(&**message, buffer)
    }

    fn decode(buffer: &mut Buffer) -> (result: Result<Rc<C::Value>, Error>) {
        match C::decode(buffer) {
            Ok(value) => Ok(Rc::new(value)),
            Err(error) => Err(error),
        }
    }
}

spec fn rc_content<T>(value: Rc<T>) -> T {
    *value
}

impl<C: LosslessCodec> LosslessCodec for Rc<C> {
    open spec fn fits(value: Rc<C::Value>) -> bool {
        C::fits(*value)
    }

    proof fn law_round_trip(value: Rc<C::Value>, tail: Seq<u8>) {
        C::law_round_trip(rc_content(value), tail);
    }
}

impl<C: Codec> Codec for Arc<C> {
    type Value = Arc<C::Value>;

    type Model = C::Model;

    open spec fn model(value: Arc<C::Value>) -> C::Model {
        C::model(*value)
    }

    open spec fn emit(value: Arc<C::Value>) -> Emitted {
        C::emit(*value)
    }

    open spec fn parse(bytes: Seq<u8>) -> Parsed<C::Model> {
        C::parse(bytes)
    }

    proof fn parse_is_within(bytes: Seq<u8>) {
        C::parse_is_within(bytes);
    }

    fn encode(message: &Arc<C::Value>, buffer: &mut Buffer) -> (result: Result<(), Error>) {
        C::encode(&**message, buffer)
    }

    fn decode(buffer: &mut Buffer) -> (result: Result<Arc<C::Value>, Error>) {
        match C::decode(buffer) {
            Ok(value) => Ok(Arc::new(value)),
            Err(error) => Err(error),
        }
    }
}

spec fn arc_content<T>(value: Arc<T>) -> T {
    *value
}

impl<C: LosslessCodec> LosslessCodec for Arc<C> {
    open spec fn fits(value: Arc<C::Value>) -> bool {
        C::fits(*value)
    }

    proof fn law_round_trip(value: Arc<C::Value>, tail: Seq<u8>) {
        C::law_round_trip(arc_content(value), tail);
    }
}

/// Values follow one another, with their number in eight bytes in front where it is not known
/// otherwise.
pub proof fn law_values_follow_one_another<C: Codec>(
    values: Seq<C::Value>,
    value: C::Value,
)
    ensures
        emit_all::<C>(Seq::empty()) == Emitted::nothing(),
        emit_all::<C>(values.push(value)) == emit_all::<C>(values).followed_by(C::emit(value)),
        emit_counted::<C>(values).bytes == little_endian(values.len(), 8) + emit_all::<C>(
            values,
        ).bytes,
        emit_counted::<C>(values).error == emit_all::<C>(values).error,
{
    assert(values.push(value).drop_last() =~= values);
}

/// A value that may be missing, and one of two, are told by a byte in front: one for what is there
/// or went well, zero for what is not or did not.
pub proof fn law_told_by_a_byte<T: Codec, E: Codec>(value: T::Value, error: E::Value)
    ensures
        <Option<T> as Codec>::emit(Some(value)).bytes == seq![1u8] + T::emit(value).bytes,
        <Option<T> as Codec>::emit(Some(value)).error == T::emit(value).error,
        <Option<T> as Codec>::emit(None) == Emitted::of(seq![0u8]),
        <Result<T, E> as Codec>::emit(Ok(value)).bytes == seq![1u8] + T::emit(value).bytes,
        <Result<T, E> as Codec>::emit(Err(error)).bytes == seq![0u8] + E::emit(error).bytes,
{
}

/// A byte in front other than one stands for what is not there.
pub proof fn law_other_bytes_are_none<T: Codec>(bytes: Seq<u8>)
    ensures
        bytes.len() > 0 && bytes[0] != 1 ==> <Option<T> as Codec>::parse(bytes) == (Parsed {
            result: Ok::<Option<T::Model>, Error>(None),
            consumed: 1,
        }),
        bytes.len() == 0 ==> <Option<T> as Codec>::parse(bytes).result == Err::<
            Option<T::Model>,
            Error,
        >(Error::UnexpectedEof),
{
}

} // verus!
