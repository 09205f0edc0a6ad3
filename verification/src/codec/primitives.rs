//! Codecs for numbers, characters and text.

use vstd::prelude::*;
use vstd::utf8::encode_utf8;

use crate::buffer::Buffer;
use crate::codec::{Codec, LosslessCodec};
use crate::endian::{little_endian, write_little_endian};
use crate::error::Error;
use crate::leb::{
    lemma_parse_is_within, parse_signed, parse_unsigned, read_signed, read_unsigned, signed_bytes,
    unsigned_bytes, write_signed, write_unsigned,
};
use crate::number::{
    bits_of, cut_to_pointer, pointer_size, pointer_sized, signed_pointer_sized, twos_complement,
    wrapped, wrapped_16, wrapped_32, wrapped_64, wrapped_8, wrapped_pointer,
};
use crate::primitive::{
    bool_byte, law_char_round_trip, law_string_round_trip, lemma_primitives_are_within, parse_bool,
    parse_byte, parse_char, parse_string, read_bool, read_byte, read_char, read_string,
    string_bytes, write_bool, write_char, write_string,
};
use crate::wire::{Emitted, Parsed};

verus! {

impl Codec for bool {
    type Value = bool;

    type Model = bool;

    open spec fn model(value: bool) -> bool {
        value
    }

    open spec fn emit(value: bool) -> Emitted {
        Emitted::of(seq![bool_byte(value)])
    }

    open spec fn parse(bytes: Seq<u8>) -> Parsed<bool> {
        parse_bool(bytes)
    }

    proof fn parse_is_within(bytes: Seq<u8>) {
        lemma_primitives_are_within(bytes);
    }

    fn encode(message: &bool, buffer: &mut Buffer) -> (result: Result<(), Error>) {
        write_bool(buffer, *message);
        Ok(())
    }

    fn decode(buffer: &mut Buffer) -> (result: Result<bool, Error>) {
        read_bool(buffer)
    }
}

impl LosslessCodec for bool {
    open spec fn fits(value: bool) -> bool {
        true
    }

    proof fn law_round_trip(value: bool, tail: Seq<u8>) {
    }
}

impl Codec for u8 {
    type Value = u8;

    type Model = u8;

    open spec fn model(value: u8) -> u8 {
        value
    }

    open spec fn emit(value: u8) -> Emitted {
        Emitted::of(seq![value])
    }

    open spec fn parse(bytes: Seq<u8>) -> Parsed<u8> {
        parse_byte(bytes)
    }

    proof fn parse_is_within(bytes: Seq<u8>) {
        lemma_primitives_are_within(bytes);
    }

    fn encode(message: &u8, buffer: &mut Buffer) -> (result: Result<(), Error>) {
        buffer.write_byte(*message);
        Ok(())
    }

    fn decode(buffer: &mut Buffer) -> (result: Result<u8, Error>) {
        read_byte(buffer)
    }
}

impl LosslessCodec for u8 {
    open spec fn fits(value: u8) -> bool {
        true
    }

    proof fn law_round_trip(value: u8, tail: Seq<u8>) {
    }
}

impl Codec for i8 {
    type Value = i8;

    type Model = i8;

    open spec fn model(value: i8) -> i8 {
        value
    }

    open spec fn emit(value: i8) -> Emitted {
        Emitted::of(seq![(value as int % 0x100) as u8])
    }

    open spec fn parse(bytes: Seq<u8>) -> Parsed<i8> {
        let byte = parse_byte(bytes);
        match byte.result {
            Ok(number) => Parsed {
                result: Ok(wrapped(number as int, 0x100) as i8),
                consumed: byte.consumed,
            },
            Err(error) => Parsed { result: Err(error), consumed: byte.consumed },
        }
    }

    proof fn parse_is_within(bytes: Seq<u8>) {
        lemma_primitives_are_within(bytes);
    }

    fn encode(message: &i8, buffer: &mut Buffer) -> (result: Result<(), Error>) {
        let byte: u8 = if *message >= 0 {
            *message as u8
        } else {
            (*message as i16 + 0x100) as u8
        };
        buffer.write_byte(byte);
        Ok(())
    }

    fn decode(buffer: &mut Buffer) -> (result: Result<i8, Error>) {
        match read_byte(buffer) {
            Ok(byte) => Ok(wrapped_8(byte as i64)),
            Err(error) => Err(error),
        }
    }
}

impl LosslessCodec for i8 {
    open spec fn fits(value: i8) -> bool {
        true
    }

    proof fn law_round_trip(value: i8, tail: Seq<u8>) {
    }
}

impl Codec for u16 {
    type Value = u16;

    type Model = u16;

    open spec fn model(value: u16) -> u16 {
        value
    }

    /// The bytes of the number, lowest first, and behind them its seven bit groups.
    open spec fn emit(value: u16) -> Emitted {
        Emitted::of(
            little_endian(value as nat, 2) + unsigned_bytes(value as nat),
        )
    }

    /// The number that seven bit groups stand for, cut to size.
    open spec fn parse(bytes: Seq<u8>) -> Parsed<u16> {
        let number = parse_unsigned(bytes);
        match number.0 {
            Ok(value) => Parsed { result: Ok((value % 0x1_0000) as u16), consumed: number.1 },
            Err(error) => Parsed { result: Err(error), consumed: number.1 },
        }
    }

    proof fn parse_is_within(bytes: Seq<u8>) {
        lemma_parse_is_within(bytes);
    }

    fn encode(message: &u16, buffer: &mut Buffer) -> (result: Result<(), Error>) {
        let ghost before = buffer@;
        write_little_endian(buffer, *message as u128, 2);
        write_unsigned(buffer, *message as u64);
        proof {
            before.lemma_written_twice(
                little_endian(*message as nat, 2),
                unsigned_bytes(*message as nat),
            );
        }
        Ok(())
    }

    fn decode(buffer: &mut Buffer) -> (result: Result<u16, Error>) {
        match read_unsigned(buffer) {
            Ok(value) => Ok((value % 0x1_0000) as u16),
            Err(error) => Err(error),
        }
    }
}

impl Codec for u32 {
    type Value = u32;

    type Model = u32;

    open spec fn model(value: u32) -> u32 {
        value
    }

    /// The bytes of the number, lowest first, and behind them its seven bit groups.
    open spec fn emit(value: u32) -> Emitted {
        Emitted::of(
            little_endian(value as nat, 4) + unsigned_bytes(value as nat),
        )
    }

    /// The number that seven bit groups stand for, cut to size.
    open spec fn parse(bytes: Seq<u8>) -> Parsed<u32> {
        let number = parse_unsigned(bytes);
        match number.0 {
            Ok(value) => Parsed { result: Ok((value % 0x1_0000_0000) as u32), consumed: number.1 },
            Err(error) => Parsed { result: Err(error), consumed: number.1 },
        }
    }

    proof fn parse_is_within(bytes: Seq<u8>) {
        lemma_parse_is_within(bytes);
    }

    fn encode(message: &u32, buffer: &mut Buffer) -> (result: Result<(), Error>) {
        let ghost before = buffer@;
        write_little_endian(buffer, *message as u128, 4);
        write_unsigned(buffer, *message as u64);
        proof {
            before.lemma_written_twice(
                little_endian(*message as nat, 4),
                unsigned_bytes(*message as nat),
            );
        }
        Ok(())
    }

    fn decode(buffer: &mut Buffer) -> (result: Result<u32, Error>) {
        match read_unsigned(buffer) {
            Ok(value) => Ok((value % 0x1_0000_0000) as u32),
            Err(error) => Err(error),
        }
    }
}

impl Codec for u64 {
    type Value = u64;

    type Model = u64;

    open spec fn model(value: u64) -> u64 {
        value
    }

    /// The bytes of the number, lowest first, and behind them its seven bit groups.
    open spec fn emit(value: u64) -> Emitted {
        Emitted::of(
            little_endian(value as nat, 8) + unsigned_bytes(value as nat),
        )
    }

    /// The number that seven bit groups stand for.
    open spec fn parse(bytes: Seq<u8>) -> Parsed<u64> {
        let number = parse_unsigned(bytes);
        match number.0 {
            Ok(value) => Parsed { result: Ok(value), consumed: number.1 },
            Err(error) => Parsed { result: Err(error), consumed: number.1 },
        }
    }

    proof fn parse_is_within(bytes: Seq<u8>) {
        lemma_parse_is_within(bytes);
    }

    fn encode(message: &u64, buffer: &mut Buffer) -> (result: Result<(), Error>) {
        let ghost before = buffer@;
        write_little_endian(buffer, *message as u128, 8);
        write_unsigned(buffer, *message);
        proof {
            before.lemma_written_twice(
                little_endian(*message as nat, 8),
                unsigned_bytes(*message as nat),
            );
        }
        Ok(())
    }

    fn decode(buffer: &mut Buffer) -> (result: Result<u64, Error>) {
        match read_unsigned(buffer) {
            Ok(value) => Ok(value),
            Err(error) => Err(error),
        }
    }
}

impl Codec for u128 {
    type Value = u128;

    type Model = u128;

    open spec fn model(value: u128) -> u128 {
        value
    }

    /// The bytes of the number, lowest first, and behind them its seven bit groups.
    open spec fn emit(value: u128) -> Emitted {
        Emitted::of(
            little_endian(value as nat, 16) + unsigned_bytes((value % 0x1_0000_0000_0000_0000) as nat),
        )
    }

    /// The number that seven bit groups stand for.
    open spec fn parse(bytes: Seq<u8>) -> Parsed<u128> {
        let number = parse_unsigned(bytes);
        match number.0 {
            Ok(value) => Parsed { result: Ok(value as u128), consumed: number.1 },
            Err(error) => Parsed { result: Err(error), consumed: number.1 },
        }
    }

    proof fn parse_is_within(bytes: Seq<u8>) {
        lemma_parse_is_within(bytes);
    }

    fn encode(message: &u128, buffer: &mut Buffer) -> (result: Result<(), Error>) {
        let ghost before = buffer@;
        write_little_endian(buffer, *message, 16);
        write_unsigned(buffer, (*message % 0x1_0000_0000_0000_0000) as u64);
        proof {
            before.lemma_written_twice(
                little_endian(*message as nat, 16),
                unsigned_bytes((*message % 0x1_0000_0000_0000_0000) as nat),
            );
        }
        Ok(())
    }

    fn decode(buffer: &mut Buffer) -> (result: Result<u128, Error>) {
        match read_unsigned(buffer) {
            Ok(value) => Ok(value as u128),
            Err(error) => Err(error),
        }
    }
}

impl Codec for usize {
    type Value = usize;

    type Model = usize;

    open spec fn model(value: usize) -> usize {
        value
    }

    /// The bytes of the number, lowest first, and behind them its seven bit groups.
    open spec fn emit(value: usize) -> Emitted {
        Emitted::of(
            little_endian(value as nat, pointer_size()) + unsigned_bytes(value as nat),
        )
    }

    /// The number that seven bit groups stand for, cut to size.
    open spec fn parse(bytes: Seq<u8>) -> Parsed<usize> {
        let number = parse_unsigned(bytes);
        match number.0 {
            Ok(value) => Parsed { result: Ok(pointer_sized(value)), consumed: number.1 },
            Err(error) => Parsed { result: Err(error), consumed: number.1 },
        }
    }

    proof fn parse_is_within(bytes: Seq<u8>) {
        lemma_parse_is_within(bytes);
    }

    fn encode(message: &usize, buffer: &mut Buffer) -> (result: Result<(), Error>) {
        let ghost before = buffer@;
        write_little_endian(buffer, *message as u128, (usize::BITS / 8) as usize);
        write_unsigned(buffer, *message as u64);
        proof {
            before.lemma_written_twice(
                little_endian(*message as nat, pointer_size()),
                unsigned_bytes(*message as nat),
            );
        }
        Ok(())
    }

    fn decode(buffer: &mut Buffer) -> (result: Result<usize, Error>) {
        match read_unsigned(buffer) {
            Ok(value) => Ok(cut_to_pointer(value)),
            Err(error) => Err(error),
        }
    }
}

impl Codec for i16 {
    type Value = i16;

    type Model = i16;

    open spec fn model(value: i16) -> i16 {
        value
    }

    /// The bytes of the number, lowest first, and behind them its seven bit groups.
    open spec fn emit(value: i16) -> Emitted {
        Emitted::of(
            little_endian(twos_complement(value as int), 2) + signed_bytes(value as int),
        )
    }

    /// The number that seven bit groups stand for, cut to size.
    open spec fn parse(bytes: Seq<u8>) -> Parsed<i16> {
        let number = parse_signed(bytes);
        match number.0 {
            Ok(value) => Parsed { result: Ok(wrapped(value as int, 0x1_0000) as i16), consumed: number.1 },
            Err(error) => Parsed { result: Err(error), consumed: number.1 },
        }
    }

    proof fn parse_is_within(bytes: Seq<u8>) {
        lemma_parse_is_within(bytes);
    }

    fn encode(message: &i16, buffer: &mut Buffer) -> (result: Result<(), Error>) {
        let ghost before = buffer@;
        write_little_endian(buffer, bits_of(*message as i128), 2);
        write_signed(buffer, *message as i64);
        proof {
            before.lemma_written_twice(
                little_endian(twos_complement(*message as int), 2),
                signed_bytes(*message as int),
            );
        }
        Ok(())
    }

    fn decode(buffer: &mut Buffer) -> (result: Result<i16, Error>) {
        match read_signed(buffer) {
            Ok(value) => Ok(wrapped_16(value)),
            Err(error) => Err(error),
        }
    }
}

impl Codec for i32 {
    type Value = i32;

    type Model = i32;

    open spec fn model(value: i32) -> i32 {
        value
    }

    /// The bytes of the number, lowest first, and behind them its seven bit groups.
    open spec fn emit(value: i32) -> Emitted {
        Emitted::of(
            little_endian(twos_complement(value as int), 4) + signed_bytes(value as int),
        )
    }

    /// The number that seven bit groups stand for, cut to size.
    open spec fn parse(bytes: Seq<u8>) -> Parsed<i32> {
        let number = parse_signed(bytes);
        match number.0 {
            Ok(value) => Parsed { result: Ok(wrapped(value as int, 0x1_0000_0000) as i32), consumed: number.1 },
            Err(error) => Parsed { result: Err(error), consumed: number.1 },
        }
    }

    proof fn parse_is_within(bytes: Seq<u8>) {
        lemma_parse_is_within(bytes);
    }

    fn encode(message: &i32, buffer: &mut Buffer) -> (result: Result<(), Error>) {
        let ghost before = buffer@;
        write_little_endian(buffer, bits_of(*message as i128), 4);
        write_signed(buffer, *message as i64);
        proof {
            before.lemma_written_twice(
                little_endian(twos_complement(*message as int), 4),
                signed_bytes(*message as int),
            );
        }
        Ok(())
    }

    fn decode(buffer: &mut Buffer) -> (result: Result<i32, Error>) {
        match read_signed(buffer) {
            Ok(value) => Ok(wrapped_32(value)),
            Err(error) => Err(error),
        }
    }
}

impl Codec for i64 {
    type Value = i64;

    type Model = i64;

    open spec fn model(value: i64) -> i64 {
        value
    }

    /// The bytes of the number, lowest first, and behind them its seven bit groups.
    open spec fn emit(value: i64) -> Emitted {
        Emitted::of(
            little_endian(twos_complement(value as int), 8) + signed_bytes(value as int),
        )
    }

    /// The number that seven bit groups stand for.
    open spec fn parse(bytes: Seq<u8>) -> Parsed<i64> {
        let number = parse_signed(bytes);
        match number.0 {
            Ok(value) => Parsed { result: Ok(value), consumed: number.1 },
            Err(error) => Parsed { result: Err(error), consumed: number.1 },
        }
    }

    proof fn parse_is_within(bytes: Seq<u8>) {
        lemma_parse_is_within(bytes);
    }

    fn encode(message: &i64, buffer: &mut Buffer) -> (result: Result<(), Error>) {
        let ghost before = buffer@;
        write_little_endian(buffer, bits_of(*message as i128), 8);
        write_signed(buffer, *message);
        proof {
            before.lemma_written_twice(
                little_endian(twos_complement(*message as int), 8),
                signed_bytes(*message as int),
            );
        }
        Ok(())
    }

    fn decode(buffer: &mut Buffer) -> (result: Result<i64, Error>) {
        match read_signed(buffer) {
            Ok(value) => Ok(value),
            Err(error) => Err(error),
        }
    }
}

impl Codec for i128 {
    type Value = i128;

    type Model = i128;

    open spec fn model(value: i128) -> i128 {
        value
    }

    /// The bytes of the number, lowest first, and behind them its seven bit groups.
    open spec fn emit(value: i128) -> Emitted {
        Emitted::of(
            little_endian(twos_complement(value as int), 16) + signed_bytes(wrapped(value as int, 0x1_0000_0000_0000_0000)),
        )
    }

    /// The number that seven bit groups stand for.
    open spec fn parse(bytes: Seq<u8>) -> Parsed<i128> {
        let number = parse_signed(bytes);
        match number.0 {
            Ok(value) => Parsed { result: Ok(value as i128), consumed: number.1 },
            Err(error) => Parsed { result: Err(error), consumed: number.1 },
        }
    }

    proof fn parse_is_within(bytes: Seq<u8>) {
        lemma_parse_is_within(bytes);
    }

    fn encode(message: &i128, buffer: &mut Buffer) -> (result: Result<(), Error>) {
        let ghost before = buffer@;
        write_little_endian(buffer, bits_of(*message), 16);
        write_signed(buffer, wrapped_64(*message));
        proof {
            before.lemma_written_twice(
                little_endian(twos_complement(*message as int), 16),
                signed_bytes(wrapped(*message as int, 0x1_0000_0000_0000_0000)),
            );
        }
        Ok(())
    }

    fn decode(buffer: &mut Buffer) -> (result: Result<i128, Error>) {
        match read_signed(buffer) {
            Ok(value) => Ok(value as i128),
            Err(error) => Err(error),
        }
    }
}

impl Codec for isize {
    type Value = isize;

    type Model = isize;

    open spec fn model(value: isize) -> isize {
        value
    }

    /// The bytes of the number, lowest first, and behind them its seven bit groups.
    open spec fn emit(value: isize) -> Emitted {
        Emitted::of(
            little_endian(twos_complement(value as int), pointer_size()) + signed_bytes(value as int),
        )
    }

    /// The number that seven bit groups stand for, cut to size.
    open spec fn parse(bytes: Seq<u8>) -> Parsed<isize> {
        let number = parse_signed(bytes);
        match number.0 {
            Ok(value) => Parsed { result: Ok(signed_pointer_sized(value)), consumed: number.1 },
            Err(error) => Parsed { result: Err(error), consumed: number.1 },
        }
    }

    proof fn parse_is_within(bytes: Seq<u8>) {
        lemma_parse_is_within(bytes);
    }

    fn encode(message: &isize, buffer: &mut Buffer) -> (result: Result<(), Error>) {
        let ghost before = buffer@;
        write_little_endian(buffer, bits_of(*message as i128), (usize::BITS / 8) as usize);
        write_signed(buffer, *message as i64);
        proof {
            before.lemma_written_twice(
                little_endian(twos_complement(*message as int), pointer_size()),
                signed_bytes(*message as int),
            );
        }
        Ok(())
    }

    fn decode(buffer: &mut Buffer) -> (result: Result<isize, Error>) {
        match read_signed(buffer) {
            Ok(value) => Ok(wrapped_pointer(value)),
            Err(error) => Err(error),
        }
    }
}

impl Codec for char {
    type Value = char;

    type Model = char;

    open spec fn model(value: char) -> char {
        value
    }

    open spec fn emit(value: char) -> Emitted {
        Emitted::of(little_endian(value as nat, 4))
    }

    open spec fn parse(bytes: Seq<u8>) -> Parsed<char> {
        parse_char(bytes)
    }

    proof fn parse_is_within(bytes: Seq<u8>) {
        lemma_primitives_are_within(bytes);
    }

    fn encode(message: &char, buffer: &mut Buffer) -> (result: Result<(), Error>) {
        write_char(buffer, *message);
        Ok(())
    }

    fn decode(buffer: &mut Buffer) -> (result: Result<char, Error>) {
        read_char(buffer)
    }
}

impl LosslessCodec for char {
    open spec fn fits(value: char) -> bool {
        true
    }

    proof fn law_round_trip(value: char, tail: Seq<u8>) {
        law_char_round_trip(value, tail);
        crate::endian::lemma_little_endian(value as nat, 4);
    }
}

impl Codec for String {
    type Value = String;

    type Model = Seq<char>;

    open spec fn model(value: String) -> Seq<char> {
        value@
    }

    open spec fn emit(value: String) -> Emitted {
        Emitted::of(string_bytes(value@))
    }

    open spec fn parse(bytes: Seq<u8>) -> Parsed<Seq<char>> {
        parse_string(bytes)
    }

    proof fn parse_is_within(bytes: Seq<u8>) {
        lemma_primitives_are_within(bytes);
    }

    fn encode(message: &String, buffer: &mut Buffer) -> (result: Result<(), Error>) {
        write_string(buffer, message.as_str());
        Ok(())
    }

    fn decode(buffer: &mut Buffer) -> (result: Result<String, Error>) {
        read_string(buffer)
    }
}

impl LosslessCodec for String {
    open spec fn fits(value: String) -> bool {
        encode_utf8(value@).len() <= u64::MAX
    }

    proof fn law_round_trip(value: String, tail: Seq<u8>) {
        law_string_round_trip(value@, tail);
    }
}

/// Numbers of more than a byte are written twice: in all their bytes, the lowest first, and packed
/// behind. What is read is the packed form.
pub proof fn law_numbers_are_written_twice(
    small: u16,
    middle: u32,
    large: u64,
    signed: i32,
    tail: Seq<u8>,
)
    ensures
        <u16 as Codec>::emit(small).bytes == little_endian(small as nat, 2) + unsigned_bytes(
            small as nat,
        ),
        <u32 as Codec>::emit(middle).bytes == little_endian(middle as nat, 4) + unsigned_bytes(
            middle as nat,
        ),
        <u64 as Codec>::emit(large).bytes == little_endian(large as nat, 8) + unsigned_bytes(
            large as nat,
        ),
        <i32 as Codec>::emit(signed).bytes == little_endian(twos_complement(signed as int), 4)
            + signed_bytes(signed as int),
        <u16 as Codec>::parse(unsigned_bytes(small as nat) + tail).result == Ok::<u16, Error>(
            small,
        ),
        <u32 as Codec>::parse(unsigned_bytes(middle as nat) + tail).result == Ok::<u32, Error>(
            middle,
        ),
        <u64 as Codec>::parse(unsigned_bytes(large as nat) + tail).result == Ok::<u64, Error>(
            large,
        ),
        <i32 as Codec>::parse(signed_bytes(signed as int) + tail).result == Ok::<i32, Error>(
            signed,
        ),
{
    crate::leb::law_unsigned_round_trip(small as u64, tail);
    crate::leb::law_unsigned_round_trip(middle as u64, tail);
    crate::leb::law_unsigned_round_trip(large, tail);
    crate::leb::law_signed_round_trip(signed as i64, tail);
    crate::number::law_wrapped_into_range(signed as int, 0x1_0000_0000);
}

/// Single bytes are written as they are, truth as one or zero.
pub proof fn law_single_bytes(byte: u8, signed: i8, truth: bool)
    ensures
        <u8 as Codec>::emit(byte).bytes == seq![byte],
        <bool as Codec>::emit(truth).bytes == seq![if truth { 1u8 } else { 0u8 }],
        signed >= 0 ==> <i8 as Codec>::emit(signed).bytes == seq![signed as u8],
        signed < 0 ==> <i8 as Codec>::emit(signed).bytes == seq![(signed + 0x100) as u8],
{
}

} // verus!
