//! Bytes, characters and text on the wire.

use vstd::prelude::*;
use vstd::utf8::{decode_utf8, encode_utf8, is_scalar, valid_utf8};

use crate::buffer::Buffer;
use crate::endian::{
    law_little_endian_round_trip, lemma_byte_powers, lemma_little_endian, little_endian,
    parse_little_endian, read_little_endian, write_little_endian,
};
use crate::error::Error;
use crate::wire::Parsed;

verus! {

/// What reading one byte gives.
pub open spec fn parse_byte(bytes: Seq<u8>) -> Parsed<u8> {
    if bytes.len() > 0 {
        Parsed { result: Ok(bytes[0]), consumed: 1 }
    } else {
        Parsed::eof(bytes)
    }
}

/// The byte that stands for a truth value.
pub open spec fn bool_byte(value: bool) -> u8 {
    if value {
        1
    } else {
        0
    }
}

/// What reading a truth value gives: any byte but zero is true.
pub open spec fn parse_bool(bytes: Seq<u8>) -> Parsed<bool> {
    if bytes.len() > 0 {
        Parsed { result: Ok(bytes[0] != 0), consumed: 1 }
    } else {
        Parsed::eof(bytes)
    }
}

/// What reading a character of four bytes gives.
pub open spec fn parse_char(bytes: Seq<u8>) -> Parsed<char> {
    let code = parse_little_endian(bytes, 4);
    match code.result {
        Ok(number) => if is_scalar(number as u32) {
            Parsed { result: Ok((number as u32) as char), consumed: code.consumed }
        } else {
            Parsed { result: Err(Error::InvalidChar), consumed: code.consumed }
        },
        Err(error) => Parsed { result: Err(error), consumed: code.consumed },
    }
}

/// A run of bytes behind its length in eight bytes, lowest first.
pub open spec fn block_bytes(content: Seq<u8>) -> Seq<u8> {
    little_endian(content.len(), 8) + content
}

/// What reading a run of bytes behind its length gives.
pub open spec fn parse_block(bytes: Seq<u8>) -> Parsed<Seq<u8>> {
    let length = parse_little_endian(bytes, 8);
    match length.result {
        Ok(number) => if 8 + number <= bytes.len() {
            Parsed { result: Ok(bytes.subrange(8, 8 + number as int)), consumed: 8 + number }
        } else {
            Parsed::eof(bytes)
        },
        Err(error) => Parsed { result: Err(error), consumed: length.consumed },
    }
}

/// What a run of bytes says as text.
pub open spec fn text_of(block: Parsed<Seq<u8>>) -> Parsed<Seq<char>> {
    match block.result {
        Ok(content) => if valid_utf8(content) {
            Parsed { result: Ok(decode_utf8(content)), consumed: block.consumed }
        } else {
            Parsed { result: Err(Error::InvalidUtf8), consumed: block.consumed }
        },
        Err(error) => Parsed { result: Err(error), consumed: block.consumed },
    }
}

/// Text behind its length in bytes.
pub open spec fn string_bytes(text: Seq<char>) -> Seq<u8> {
    block_bytes(encode_utf8(text))
}

/// What reading text behind its length gives.
pub open spec fn parse_string(bytes: Seq<u8>) -> Parsed<Seq<char>> {
    text_of(parse_block(bytes))
}

/// Reading gives back the run of bytes that was written.
pub proof fn law_block_round_trip(content: Seq<u8>, tail: Seq<u8>)
    requires
        content.len() <= u64::MAX,
    ensures
        parse_block(block_bytes(content) + tail) == (Parsed {
            result: Ok::<Seq<u8>, Error>(content),
            consumed: block_bytes(content).len(),
        }),
{
    lemma_byte_powers();
    lemma_little_endian(content.len(), 8);
    law_little_endian_round_trip(content.len(), 8, content + tail);
    let all = block_bytes(content) + tail;
    assert(all =~= little_endian(content.len(), 8) + (content + tail));
    assert(all.subrange(8, 8 + content.len() as int) =~= content);
}

/// Reading gives back the text that was written.
pub proof fn law_string_round_trip(text: Seq<char>, tail: Seq<u8>)
    requires
        encode_utf8(text).len() <= u64::MAX,
    ensures
        parse_string(string_bytes(text) + tail) == (Parsed {
            result: Ok::<Seq<char>, Error>(text),
            consumed: string_bytes(text).len(),
        }),
{
    law_block_round_trip(encode_utf8(text), tail);
    vstd::utf8::encode_utf8_valid_utf8(text);
    vstd::utf8::encode_utf8_decode_utf8(text);
}

/// Reading gives back the character that was written.
pub proof fn law_char_round_trip(value: char, tail: Seq<u8>)
    ensures
        parse_char(little_endian(value as nat, 4) + tail) == (Parsed {
            result: Ok::<char, Error>(value),
            consumed: 4,
        }),
{
    lemma_byte_powers();
    law_little_endian_round_trip(value as nat, 4, tail);
}

/// Reading takes no more bytes than there are.
pub proof fn lemma_primitives_are_within(bytes: Seq<u8>)
    ensures
        parse_byte(bytes).consumed <= bytes.len(),
        parse_bool(bytes).consumed <= bytes.len(),
        parse_char(bytes).consumed <= bytes.len(),
        parse_block(bytes).consumed <= bytes.len(),
        parse_string(bytes).consumed <= bytes.len(),
{
}

/// `char::from_u32`: the character with the given code, if the code is a Unicode scalar value.
#[verifier::external_body]
pub(crate) fn char_from_code(code: u32) -> (result: Option<char>)
    ensures
        result == if is_scalar(code) {
            Some(code as char)
        } else {
            None::<char>
        },
{
    char::from_u32(code)
}

/// `String::from_utf8`: the text that the bytes are in UTF-8, or nothing if they are not.
#[verifier::external_body]
fn string_from_utf8(bytes: Vec<u8>) -> (result: Option<String>)
    ensures
        result is Some <==> valid_utf8(bytes@),
        result matches Some(text) ==> text@ == decode_utf8(bytes@),
{
    String::from_utf8(bytes).ok()
}

/// Writes a truth value.
pub fn write_bool(buffer: &mut Buffer, value: bool)
    ensures
        final(buffer)@ == old(buffer)@.written(seq![bool_byte(value)]),
{
    if value {
        buffer.write_byte(1);
    } else {
        buffer.write_byte(0);
    }
}

/// Reads one byte.
pub fn read_byte(buffer: &mut Buffer) -> (result: Result<u8, Error>)
    ensures
        result == parse_byte(old(buffer)@.rest).result,
        final(buffer)@ == old(buffer)@.advanced(parse_byte(old(buffer)@.rest).consumed),
{
    let ghost before = buffer@;
    let result = buffer.read_byte();
    assert(buffer@ =~= before.advanced(parse_byte(before.rest).consumed));
    result
}

/// Reads a truth value.
pub fn read_bool(buffer: &mut Buffer) -> (result: Result<bool, Error>)
    ensures
        result == parse_bool(old(buffer)@.rest).result,
        final(buffer)@ == old(buffer)@.advanced(parse_bool(old(buffer)@.rest).consumed),
{
    match read_byte(buffer) {
        Ok(byte) => Ok(byte != 0),
        Err(error) => Err(error),
    }
}

/// Writes a character.
pub fn write_char(buffer: &mut Buffer, value: char)
    ensures
        final(buffer)@ == old(buffer)@.written(little_endian(value as nat, 4)),
{
    write_little_endian(buffer, value as u128, 4);
}

/// Reads a character.
pub fn read_char(buffer: &mut Buffer) -> (result: Result<char, Error>)
    ensures
        result == parse_char(old(buffer)@.rest).result,
        final(buffer)@ == old(buffer)@.advanced(parse_char(old(buffer)@.rest).consumed),
{
    let ghost before = buffer@;
    match read_little_endian(buffer, 4) {
        Ok(code) => {
            proof {
                crate::endian::lemma_little_endian_value(before.rest.take(4));
                lemma_byte_powers();
            }
            match char_from_code(code as u32) {
                Some(value) => Ok(value),
                None => Err(Error::InvalidChar),
            }
        },
        Err(error) => Err(error),
    }
}

/// Writes a run of bytes behind its length.
pub fn write_block(buffer: &mut Buffer, content: &[u8])
    ensures
        final(buffer)@ == old(buffer)@.written(block_bytes(content@)),
{
    let ghost before = buffer@;
    write_little_endian(buffer, content.len() as u128, 8);
    buffer.write_all(content);
    proof {
        before.lemma_written_twice(little_endian(content@.len(), 8), content@);
    }
}

/// Reads a run of bytes behind its length.
pub fn read_block(buffer: &mut Buffer) -> (result: Result<Vec<u8>, Error>)
    ensures
        match (result, parse_block(old(buffer)@.rest).result) {
            (Ok(content), Ok(expected)) => content@ == expected,
            (Err(error), Err(expected)) => error == expected,
            _ => false,
        },
        final(buffer)@ == old(buffer)@.advanced(parse_block(old(buffer)@.rest).consumed),
{
    let ghost before = buffer@;
    match read_little_endian(buffer, 8) {
        Ok(length) => {
            let ghost between = buffer@;
            let result = buffer.read_exact(length);
            proof {
                assert(between.rest =~= before.rest.skip(8));
                before.lemma_advanced_twice(8, length as nat);
                if 8 + length <= before.rest.len() {
                    assert(between.rest.take(length as int) =~= before.rest.subrange(
                        8,
                        8 + length as int,
                    ));
                } else {
                    assert(buffer@ =~= before.advanced(before.rest.len()));
                }
            }
            result
        },
        Err(error) => Err(error),
    }
}

/// Writes text behind its length.
pub fn write_string(buffer: &mut Buffer, text: &str)
    ensures
        final(buffer)@ == old(buffer)@.written(string_bytes(text@)),
{
    write_block(buffer, text.as_bytes());
}

/// Turns a run of bytes that was read into text.
pub fn block_to_string(block: Vec<u8>) -> (result: Result<String, Error>)
    ensures
        match result {
            Ok(text) => valid_utf8(block@) && text@ == decode_utf8(block@),
            Err(error) => !valid_utf8(block@) && error == Error::InvalidUtf8,
        },
{
    match string_from_utf8(block) {
        Some(text) => Ok(text),
        None => Err(Error::InvalidUtf8),
    }
}

/// Reads text behind its length.
pub fn read_string(buffer: &mut Buffer) -> (result: Result<String, Error>)
    ensures
        match (result, parse_string(old(buffer)@.rest).result) {
            (Ok(text), Ok(expected)) => text@ == expected,
            (Err(error), Err(expected)) => error == expected,
            _ => false,
        },
        final(buffer)@ == old(buffer)@.advanced(parse_string(old(buffer)@.rest).consumed),
{
    match read_block(buffer) {
        Ok(block) => block_to_string(block),
        Err(error) => Err(error),
    }
}

/// Truth is one byte: one for true and zero for false; read back, every byte but zero is true.
pub proof fn law_truth_is_a_byte(bytes: Seq<u8>)
    ensures
        bool_byte(true) == 1,
        bool_byte(false) == 0,
        bytes.len() > 0 ==> parse_bool(bytes).result == Ok::<bool, Error>(bytes[0] != 0)
            && parse_bool(bytes).consumed == 1,
        bytes.len() > 0 ==> parse_byte(bytes).result == Ok::<u8, Error>(bytes[0]) && parse_byte(
            bytes,
        ).consumed == 1,
        bytes.len() == 0 ==> parse_bool(bytes).result == Err::<bool, Error>(Error::UnexpectedEof),
        bytes.len() == 0 ==> parse_byte(bytes).result == Err::<u8, Error>(Error::UnexpectedEof),
{
}

/// A block is its length in eight bytes, the lowest first, and then its bytes. A block that is cut
/// short is refused.
pub proof fn law_blocks_are_counted(content: Seq<u8>, cut: int)
    requires
        content.len() <= u64::MAX,
        0 <= cut < block_bytes(content).len(),
    ensures
        block_bytes(content).len() == 8 + content.len(),
        block_bytes(content).take(8) == little_endian(content.len(), 8),
        block_bytes(content).skip(8) == content,
        parse_block(block_bytes(content).take(cut)).result == Err::<Seq<u8>, Error>(
            Error::UnexpectedEof,
        ),
{
    law_block_round_trip(content, Seq::empty());
    lemma_little_endian_len(content.len(), 8);
    let bytes = block_bytes(content);
    assert(bytes.take(8) =~= little_endian(content.len(), 8));
    assert(bytes.skip(8) =~= content);
    assert(bytes + Seq::<u8>::empty() =~= bytes);
    let part = bytes.take(cut);
    if cut >= 8 {
        assert(part.take(8) =~= bytes.take(8));
    }
}

proof fn lemma_little_endian_len(number: nat, count: nat)
    ensures
        little_endian(number, count).len() == count,
    decreases count,
{
    if count > 0 {
        lemma_little_endian_len(number / 256, (count - 1) as nat);
    }
}

/// Text is its bytes as a block; a block that is no text is refused.
pub proof fn law_text_is_a_block(text: Seq<char>, content: Seq<u8>)
    requires
        content.len() <= u64::MAX,
    ensures
        string_bytes(text) == block_bytes(encode_utf8(text)),
        !valid_utf8(content) ==> parse_string(block_bytes(content)).result == Err::<
            Seq<char>,
            Error,
        >(Error::InvalidUtf8),
        valid_utf8(content) ==> parse_string(block_bytes(content)).result == Ok::<Seq<char>, Error>(
            decode_utf8(content),
        ),
{
    law_block_round_trip(content, Seq::empty());
    assert(block_bytes(content) + Seq::<u8>::empty() =~= block_bytes(content));
}

/// A number that is no character is refused.
pub proof fn law_no_character(code: u32, tail: Seq<u8>)
    ensures
        !is_scalar(code) ==> parse_char(little_endian(code as nat, 4) + tail).result == Err::<
            char,
            Error,
        >(Error::InvalidChar),
{
    let bytes = little_endian(code as nat, 4) + tail;
    assert(code < crate::endian::byte_power(4)) by {
        reveal_with_fuel(crate::endian::byte_power, 5);
    }
    law_little_endian_round_trip(code as nat, 4, tail);
}

} // verus!
