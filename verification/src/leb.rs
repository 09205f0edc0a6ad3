//! Variable length numbers: groups of seven bits, lowest first, where every byte but the
//! last has its top bit set.

use vstd::prelude::*;

use crate::buffer::Buffer;
use crate::error::Error;

verus! {

/// The bytes of a natural number.
pub open spec fn unsigned_bytes(number: nat) -> Seq<u8>
    decreases number,
{
    if number < 128 {
        seq![number as u8]
    } else {
        seq![(number % 128 + 128) as u8] + unsigned_bytes(number / 128)
    }
}

/// The bytes of an integer in two's complement.
pub open spec fn signed_bytes(number: int) -> Seq<u8>
    decreases (if number < 0 { -number } else { number }),
{
    if -64 <= number < 64 {
        seq![(number % 128) as u8]
    } else {
        seq![(number % 128 + 128) as u8] + signed_bytes(number / 128)
    }
}

/// Where the first byte with a clear top bit stands.
pub open spec fn terminator(bytes: Seq<u8>) -> Option<nat>
    decreases bytes.len(),
{
    if bytes.len() == 0 {
        None
    } else if bytes[0] < 128 {
        Some(0)
    } else {
        match terminator(bytes.skip(1)) {
            Some(index) => Some(index + 1),
            None => None,
        }
    }
}

/// The natural number that the groups of `bytes` stand for.
pub open spec fn unsigned_value(bytes: Seq<u8>) -> nat
    decreases bytes.len(),
{
    if bytes.len() == 0 {
        0
    } else {
        (bytes[0] % 128) as nat + 128 * unsigned_value(bytes.skip(1))
    }
}

/// The integer that the groups of `bytes` stand for, the last of them with its sign.
pub open spec fn signed_value(bytes: Seq<u8>) -> int
    decreases bytes.len(),
{
    if bytes.len() == 0 {
        0
    } else if bytes.len() == 1 {
        if bytes[0] % 128 < 64 {
            (bytes[0] % 128) as int
        } else {
            bytes[0] % 128 - 128
        }
    } else {
        (bytes[0] % 128) as int + 128 * signed_value(bytes.skip(1))
    }
}

/// What reading a number from `bytes` gives, and how many bytes it takes.
pub open spec fn parse_unsigned(bytes: Seq<u8>) -> (Result<u64, Error>, nat) {
    match terminator(bytes) {
        None => (Err(Error::UnexpectedEof), bytes.len()),
        Some(last) => {
            let value = unsigned_value(bytes.take(last as int + 1));
            if last <= 9 && value <= u64::MAX {
                (Ok(value as u64), last + 1)
            } else {
                (Err(Error::NumberOverflow), last + 1)
            }
        },
    }
}

/// What reading a number with a sign from `bytes` gives, and how many bytes it takes.
pub open spec fn parse_signed(bytes: Seq<u8>) -> (Result<i64, Error>, nat) {
    match terminator(bytes) {
        None => (Err(Error::UnexpectedEof), bytes.len()),
        Some(last) => {
            let value = signed_value(bytes.take(last as int + 1));
            if last <= 9 && i64::MIN <= value <= i64::MAX {
                (Ok(value as i64), last + 1)
            } else {
                (Err(Error::NumberOverflow), last + 1)
            }
        },
    }
}

/// A terminator lies within its bytes.
pub proof fn lemma_terminator_is_within(bytes: Seq<u8>)
    ensures
        terminator(bytes) matches Some(last) ==> last < bytes.len(),
    decreases bytes.len(),
{
    if bytes.len() > 0 {
        lemma_terminator_is_within(bytes.skip(1));
    }
}

/// Reading a number takes no more bytes than there are.
pub proof fn lemma_parse_is_within(bytes: Seq<u8>)
    ensures
        parse_unsigned(bytes).1 <= bytes.len(),
        parse_signed(bytes).1 <= bytes.len(),
{
    lemma_terminator_is_within(bytes);
}

spec fn power_of_128(exponent: nat) -> nat
    decreases exponent,
{
    if exponent == 0 {
        1
    } else {
        128 * power_of_128((exponent - 1) as nat)
    }
}

proof fn lemma_unsigned_bytes(number: nat, size: nat, tail: Seq<u8>)
    requires
        number < power_of_128(size),
        size > 0,
    ensures
        0 < unsigned_bytes(number).len() <= size,
        unsigned_value(unsigned_bytes(number)) == number,
        terminator(unsigned_bytes(number) + tail) == Some((unsigned_bytes(number).len() - 1) as nat),
    decreases size,
{
    reveal_with_fuel(power_of_128, 2);
    let bytes = unsigned_bytes(number);
    let all = bytes + tail;
    if number < 128 {
        assert(bytes.skip(1) =~= Seq::empty());
        assert(unsigned_value(bytes.skip(1)) == 0);
    } else {
        let next = unsigned_bytes(number / 128);
        lemma_unsigned_bytes(number / 128, (size - 1) as nat, tail);
        assert(bytes.skip(1) =~= next);
        assert(all.skip(1) =~= next + tail);
        assert((number % 128 + 128) as u8 % 128 == number % 128);
    }
}

proof fn lemma_signed_bytes(number: int, size: nat, tail: Seq<u8>)
    requires
        -power_of_128(size) <= 2 * number < power_of_128(size),
        size > 0,
    ensures
        0 < signed_bytes(number).len() <= size,
        signed_value(signed_bytes(number)) == number,
        terminator(signed_bytes(number) + tail) == Some((signed_bytes(number).len() - 1) as nat),
    decreases size,
{
    reveal_with_fuel(power_of_128, 2);
    let bytes = signed_bytes(number);
    let all = bytes + tail;
    if -64 <= number < 64 {
        assert(bytes.skip(1) =~= Seq::empty());
    } else {
        let next = signed_bytes(number / 128);
        lemma_signed_bytes(number / 128, (size - 1) as nat, tail);
        assert(bytes.skip(1) =~= next);
        assert(all.skip(1) =~= next + tail);
        assert((number % 128 + 128) as u8 % 128 == number % 128);
    }
}

/// Reading gives back the number that was written, and takes exactly its bytes.
pub proof fn law_unsigned_round_trip(number: u64, tail: Seq<u8>)
    ensures
        parse_unsigned(unsigned_bytes(number as nat) + tail) == (
            Ok::<u64, Error>(number),
            unsigned_bytes(number as nat).len(),
        ),
{
    let bytes = unsigned_bytes(number as nat);
    assert(power_of_128(10) > u64::MAX) by {
        reveal_with_fuel(power_of_128, 11);
    }
    lemma_unsigned_bytes(number as nat, 10, tail);
    assert((bytes + tail).take(bytes.len() as int) =~= bytes);
}

/// Reading gives back the number with its sign that was written, and takes exactly its bytes.
pub proof fn law_signed_round_trip(number: i64, tail: Seq<u8>)
    ensures
        parse_signed(signed_bytes(number as int) + tail) == (
            Ok::<i64, Error>(number),
            signed_bytes(number as int).len(),
        ),
{
    let bytes = signed_bytes(number as int);
    assert(power_of_128(10) > 2 * (i64::MAX + 1)) by {
        reveal_with_fuel(power_of_128, 11);
    }
    lemma_signed_bytes(number as int, 10, tail);
    assert((bytes + tail).take(bytes.len() as int) =~= bytes);
}

/// `leb128::write::unsigned` into a new vector: the seven bit groups of the number, lowest
/// first, with the top bit set on all but the last.
#[verifier::external_body]
fn unsigned_to_vec(number: u64) -> (result: Vec<u8>)
    ensures
        result@ == unsigned_bytes(number as nat),
{
    let mut bytes = Vec::new();
    leb128::write::unsigned(&mut bytes, number).expect("a vector takes every write");
    bytes
}

/// `leb128::write::signed` into a new vector: the seven bit groups of the number in two's
/// complement, lowest first, up to the group that settles the sign.
#[verifier::external_body]
fn signed_to_vec(number: i64) -> (result: Vec<u8>)
    ensures
        result@ == signed_bytes(number as int),
{
    let mut bytes = Vec::new();
    leb128::write::signed(&mut bytes, number).expect("a vector takes every write");
    bytes
}

/// `leb128::read::unsigned` from a slice: the number up to the first byte with a clear top
/// bit. It overflows when that byte is behind the tenth or the number exceeds 64 bits, and
/// takes the bytes up to there all the same. Also gives the number of bytes left over.
#[verifier::external_body]
fn unsigned_from_slice(bytes: &[u8]) -> (result: (Result<u64, Error>, usize))
    ensures
        result.0 == parse_unsigned(bytes@).0,
        result.1 == bytes@.len() - parse_unsigned(bytes@).1,
{
    let mut reader = bytes;
    let number = match leb128::read::unsigned(&mut reader) {
        Ok(number) => Ok(number),
        Err(leb128::read::Error::IoError(_)) => Err(Error::UnexpectedEof),
        Err(leb128::read::Error::Overflow) => Err(Error::NumberOverflow),
    };
    (number, reader.len())
}

/// `leb128::read::signed` from a slice: as for numbers without a sign, with the sixth bit of
/// the last byte for the sign. Also gives the number of bytes left over.
#[verifier::external_body]
fn signed_from_slice(bytes: &[u8]) -> (result: (Result<i64, Error>, usize))
    ensures
        result.0 == parse_signed(bytes@).0,
        result.1 == bytes@.len() - parse_signed(bytes@).1,
{
    let mut reader = bytes;
    let number = match leb128::read::signed(&mut reader) {
        Ok(number) => Ok(number),
        Err(leb128::read::Error::IoError(_)) => Err(Error::UnexpectedEof),
        Err(leb128::read::Error::Overflow) => Err(Error::NumberOverflow),
    };
    (number, reader.len())
}

/// Writes a number at the cursor.
pub fn write_unsigned(buffer: &mut Buffer, number: u64)
    ensures
        final(buffer)@ == old(buffer)@.written(unsigned_bytes(number as nat)),
{
    let bytes = unsigned_to_vec(number);
    buffer.write_all(bytes.as_slice());
}

/// Writes a number with its sign at the cursor.
pub fn write_signed(buffer: &mut Buffer, number: i64)
    ensures
        final(buffer)@ == old(buffer)@.written(signed_bytes(number as int)),
{
    let bytes = signed_to_vec(number);
    buffer.write_all(bytes.as_slice());
}

/// Reads a number from the cursor on.
pub fn read_unsigned(buffer: &mut Buffer) -> (result: Result<u64, Error>)
    ensures
        result == parse_unsigned(old(buffer)@.rest).0,
        final(buffer)@ == old(buffer)@.advanced(parse_unsigned(old(buffer)@.rest).1),
{
    proof {
        lemma_parse_is_within(buffer@.rest);
    }
    let available: usize = buffer.remaining();
    let (number, left): (Result<u64, Error>, usize) = unsigned_from_slice(buffer.rest());
    buffer.advance(available - left);
    number
}

/// Reads a number with its sign from the cursor on.
pub fn read_signed(buffer: &mut Buffer) -> (result: Result<i64, Error>)
    ensures
        result == parse_signed(old(buffer)@.rest).0,
        final(buffer)@ == old(buffer)@.advanced(parse_signed(old(buffer)@.rest).1),
{
    proof {
        lemma_parse_is_within(buffer@.rest);
    }
    let available: usize = buffer.remaining();
    let (number, left): (Result<i64, Error>, usize) = signed_from_slice(buffer.rest());
    buffer.advance(available - left);
    number
}

/// A number is written in groups of seven bits, the lowest first, each in a byte of its own with
/// the high bit set on all but the last. A number of one group takes one byte.
pub proof fn law_groups_of_seven_bits(number: nat, place: int)
    ensures
        ({
            let bytes = unsigned_bytes(number);
            &&& bytes.len() > 0
            &&& number < 128 ==> bytes == seq![number as u8]
            &&& bytes[0] as nat % 128 == number % 128
            &&& number >= 128 ==> bytes[0] >= 128 && bytes.skip(1) == unsigned_bytes(number / 128)
            &&& 0 <= place < bytes.len() - 1 ==> bytes[place] >= 128
            &&& bytes.last() < 128
            &&& bytes.len() > 1 ==> bytes.last() > 0
        }),
    decreases number,
{
    let bytes = unsigned_bytes(number);
    if number >= 128 {
        law_groups_of_seven_bits(number / 128, place - 1);
        assert(bytes.skip(1) =~= unsigned_bytes(number / 128));
        assert(bytes.last() == unsigned_bytes(number / 128).last());
        if 0 < place < bytes.len() - 1 {
            assert(bytes[place] == unsigned_bytes(number / 128)[place - 1]);
        }
    }
}

/// A signed number is written in groups of seven bits as well, with as many as its sign needs:
/// one for those from -64 to 63.
pub proof fn law_signed_groups_of_seven_bits(number: int, place: int)
    ensures
        ({
            let bytes = signed_bytes(number);
            &&& bytes.len() > 0
            &&& 0 <= number < 64 ==> bytes == seq![number as u8]
            &&& -64 <= number < 0 ==> bytes == seq![(number + 128) as u8]
            &&& bytes[0] as int % 128 == number % 128
            &&& (number < -64 || number >= 64) ==> bytes[0] >= 128 && bytes.skip(1)
                == signed_bytes(number / 128)
            &&& 0 <= place < bytes.len() - 1 ==> bytes[place] >= 128
            &&& bytes.last() < 128
        }),
    decreases (if number < 0 { -number } else { number }),
{
    let bytes = signed_bytes(number);
    if number < -64 || number >= 64 {
        law_signed_groups_of_seven_bits(number / 128, place - 1);
        assert(bytes.skip(1) =~= signed_bytes(number / 128));
        assert(bytes.last() == signed_bytes(number / 128).last());
        if 0 < place < bytes.len() - 1 {
            assert(bytes[place] == signed_bytes(number / 128)[place - 1]);
        }
    }
}

/// Where every byte says that another follows, the end is missing, and all is taken; the first
/// byte that does not is the last one of the number.
pub proof fn law_end_of_the_number(bytes: Seq<u8>, place: int)
    ensures
        (forall|i: int| 0 <= i < bytes.len() ==> (#[trigger] bytes[i]) >= 128) ==> {
            &&& parse_unsigned(bytes) == (Err::<u64, Error>(Error::UnexpectedEof), bytes.len())
            &&& parse_signed(bytes) == (Err::<i64, Error>(Error::UnexpectedEof), bytes.len())
        },
        (0 <= place < bytes.len() && bytes[place] < 128 && forall|i: int|
            0 <= i < place ==> (#[trigger] bytes[i]) >= 128) ==> {
            &&& parse_unsigned(bytes).1 == place + 1
            &&& parse_signed(bytes).1 == place + 1
        },
{
    lemma_terminator(bytes, place);
}

proof fn lemma_terminator(bytes: Seq<u8>, place: int)
    ensures
        (forall|i: int| 0 <= i < bytes.len() ==> (#[trigger] bytes[i]) >= 128) ==> terminator(bytes)
            is None,
        (0 <= place < bytes.len() && bytes[place] < 128 && forall|i: int|
            0 <= i < place ==> (#[trigger] bytes[i]) >= 128) ==> terminator(bytes) == Some(
            place as nat,
        ),
    decreases bytes.len(),
{
    if bytes.len() > 0 && bytes[0] >= 128 {
        let rest = bytes.skip(1);
        lemma_terminator(rest, place - 1);
        assert(forall|i: int| 0 <= i < rest.len() ==> rest[i] == bytes[i + 1]);
        if forall|i: int| 0 <= i < bytes.len() ==> (#[trigger] bytes[i]) >= 128 {
            assert forall|i: int| 0 <= i < rest.len() implies (#[trigger] rest[i]) >= 128 by {
                assert(bytes[i + 1] >= 128);
            }
        }
        if 0 < place < bytes.len() && bytes[place] < 128 && (forall|i: int|
            0 <= i < place ==> (#[trigger] bytes[i]) >= 128) {
            assert forall|i: int| 0 <= i < place - 1 implies (#[trigger] rest[i]) >= 128 by {
                assert(bytes[i + 1] >= 128);
            }
            assert(rest[place - 1] == bytes[place]);
        }
    } else if bytes.len() > 0 {
        assert(bytes[0] < 128);
    }
}

} // verus!
