//! Numbers of a fixed number of bytes.

use vstd::prelude::*;

use crate::buffer::Buffer;
use crate::error::Error;
use crate::wire::Parsed;

verus! {

/// `2` to the power of `8 * count`: how many numbers `count` bytes can tell apart.
pub open spec fn byte_power(count: nat) -> nat
    decreases count,
{
    if count == 0 {
        1
    } else {
        256 * byte_power((count - 1) as nat)
    }
}

/// The lowest `count` bytes of a number, lowest first.
pub open spec fn little_endian(number: nat, count: nat) -> Seq<u8>
    decreases count,
{
    if count == 0 {
        Seq::empty()
    } else {
        seq![(number % 256) as u8] + little_endian(number / 256, (count - 1) as nat)
    }
}

/// The number whose bytes, lowest first, are `bytes`.
pub open spec fn little_endian_value(bytes: Seq<u8>) -> nat
    decreases bytes.len(),
{
    if bytes.len() == 0 {
        0
    } else {
        bytes[0] as nat + 256 * little_endian_value(bytes.skip(1))
    }
}

/// What reading a number of `count` bytes, lowest first, gives.
pub open spec fn parse_little_endian(bytes: Seq<u8>, count: nat) -> Parsed<nat> {
    if count <= bytes.len() {
        Parsed { result: Ok(little_endian_value(bytes.take(count as int))), consumed: count }
    } else {
        Parsed::eof(bytes)
    }
}

/// A number has as many bytes as it is asked for, and they stand for what fits in them.
pub proof fn lemma_little_endian(number: nat, count: nat)
    ensures
        little_endian(number, count).len() == count,
        number < byte_power(count) ==> little_endian_value(little_endian(number, count)) == number,
    decreases count,
{
    if count > 0 {
        lemma_little_endian(number / 256, (count - 1) as nat);
        let bytes = little_endian(number, count);
        assert(bytes.skip(1) =~= little_endian(number / 256, (count - 1) as nat));
    }
}

/// Bytes stand for a number that fits in them.
pub proof fn lemma_little_endian_value(bytes: Seq<u8>)
    ensures
        little_endian_value(bytes) < byte_power(bytes.len()),
    decreases bytes.len(),
{
    if bytes.len() > 0 {
        lemma_little_endian_value(bytes.skip(1));
    }
}

/// Reading gives back the number that was written, and takes exactly its bytes.
pub proof fn law_little_endian_round_trip(number: nat, count: nat, tail: Seq<u8>)
    requires
        number < byte_power(count),
    ensures
        parse_little_endian(little_endian(number, count) + tail, count) == (Parsed {
            result: Ok::<nat, Error>(number),
            consumed: count,
        }),
{
    lemma_little_endian(number, count);
    assert((little_endian(number, count) + tail).take(count as int) =~= little_endian(
        number,
        count,
    ));
}

/// How many numbers a few bytes can tell apart.
pub proof fn lemma_byte_powers()
    ensures
        byte_power(1) == 0x100,
        byte_power(2) == 0x1_0000,
        byte_power(4) == 0x1_0000_0000,
        byte_power(8) == 0x1_0000_0000_0000_0000,
        byte_power(16) == 0x1_0000_0000_0000_0000_0000_0000_0000_0000,
{
    reveal_with_fuel(byte_power, 17);
}

/// The lowest `count` bytes of a number, lowest first.
pub fn to_little_endian(number: u128, count: usize) -> (result: Vec<u8>)
    ensures
        result@ == little_endian(number as nat, count as nat),
{
    let mut result: Vec<u8> = Vec::new();
    let mut left: u128 = number;
    let mut index: usize = 0;
    while index < count
        invariant
            index <= count,
            little_endian(number as nat, count as nat) == result@ + little_endian(
                left as nat,
                (count - index) as nat,
            ),
        decreases count - index,
    {
        let ghost before = result@;
        let byte: u8 = (left % 256) as u8;
        result.push(byte);
        assert(before + little_endian(left as nat, (count - index) as nat) =~= result@
            + little_endian((left / 256) as nat, (count - index - 1) as nat));
        left = left / 256;
        index = index + 1;
    }
    assert(result@ + little_endian(left as nat, 0) =~= result@);
    result
}

/// The number whose bytes, lowest first, are `bytes`.
pub fn from_little_endian(bytes: &[u8]) -> (result: u64)
    requires
        bytes@.len() <= 8,
    ensures
        result == little_endian_value(bytes@),
{
    let mut result: u64 = 0;
    let mut index: usize = bytes.len();
    assert(bytes@.skip(index as int) =~= Seq::empty());
    while index > 0
        invariant
            index <= bytes@.len() <= 8,
            result == little_endian_value(bytes@.skip(index as int)),
        decreases index,
    {
        index = index - 1;
        proof {
            assert(bytes@.skip(index as int).skip(1) =~= bytes@.skip(index + 1));
            lemma_little_endian_value(bytes@.skip(index as int));
            reveal_with_fuel(byte_power, 9);
        }
        result = bytes[index] as u64 + 256 * result;
    }
    assert(bytes@.skip(0) =~= bytes@);
    result
}

/// Writes the lowest `count` bytes of a number, lowest first.
pub fn write_little_endian(buffer: &mut Buffer, number: u128, count: usize)
    ensures
        final(buffer)@ == old(buffer)@.written(little_endian(number as nat, count as nat)),
{
    let bytes = to_little_endian(number, count);
    buffer.write_all(bytes.as_slice());
}

/// Reads a number of `count` bytes, lowest first.
pub fn read_little_endian(buffer: &mut Buffer, count: u64) -> (result: Result<u64, Error>)
    requires
        count <= 8,
    ensures
        match (result, parse_little_endian(old(buffer)@.rest, count as nat).result) {
            (Ok(number), Ok(expected)) => number == expected,
            (Err(error), Err(expected)) => error == expected,
            _ => false,
        },
        final(buffer)@ == old(buffer)@.advanced(
            parse_little_endian(old(buffer)@.rest, count as nat).consumed,
        ),
{
    match buffer.read_exact(count) {
        Ok(bytes) => Ok(from_little_endian(bytes.as_slice())),
        Err(error) => {
            assert(buffer@ =~= old(buffer)@.advanced(old(buffer)@.rest.len()));
            Err(error)
        },
    }
}

/// The lowest byte of a number stands first, and each byte behind it counts 256 times as much:
/// the byte at a place is what is left of the number without those before it, cut to a byte.
pub proof fn law_lowest_byte_first(number: nat, count: nat, place: nat)
    requires
        place < count,
    ensures
        little_endian(number, count).len() == count,
        little_endian(number, count)[place as int] == (number / byte_power(place)) % 256,
        byte_power(0) == 1,
        byte_power(place + 1) == 256 * byte_power(place),
        byte_power(1) == 0x100,
        byte_power(2) == 0x1_0000,
    decreases count,
{
    reveal_with_fuel(byte_power, 4);
    if place > 0 {
        law_lowest_byte_first(number / 256, (count - 1) as nat, (place - 1) as nat);
        lemma_byte_power_positive((place - 1) as nat);
        vstd::arithmetic::div_mod::lemma_div_denominator(
            number as int,
            256,
            byte_power((place - 1) as nat) as int,
        );
        assert(byte_power(place) == 256 * byte_power((place - 1) as nat));
        assert(little_endian(number, count)[place as int] == little_endian(
            number / 256,
            (count - 1) as nat,
        )[place - 1]);
    } else {
        lemma_little_endian_length(number, count);
        assert(number / 1 == number);
    }
}

proof fn lemma_byte_power_positive(count: nat)
    ensures
        byte_power(count) > 0,
    decreases count,
{
    if count > 0 {
        lemma_byte_power_positive((count - 1) as nat);
    }
}

proof fn lemma_little_endian_length(number: nat, count: nat)
    ensures
        little_endian(number, count).len() == count,
    decreases count,
{
    if count > 0 {
        lemma_little_endian_length(number / 256, (count - 1) as nat);
    }
}

/// A number is read from as many bytes as are asked for, and only if there are as many; a byte
/// more in front counts once, and moves the others up by one place.
pub proof fn law_read_from_the_lowest(first: u8, rest: Seq<u8>, bytes: Seq<u8>, count: nat)
    ensures
        little_endian_value(Seq::empty()) == 0,
        little_endian_value(seq![first] + rest) == first + 256 * little_endian_value(rest),
        count <= bytes.len() ==> parse_little_endian(bytes, count).result == Ok::<nat, Error>(
            little_endian_value(bytes.take(count as int)),
        ) && parse_little_endian(bytes, count).consumed == count,
        count > bytes.len() ==> parse_little_endian(bytes, count).result == Err::<nat, Error>(
            Error::UnexpectedEof,
        ),
{
    assert((seq![first] + rest).skip(1) =~= rest);
}

} // verus!
