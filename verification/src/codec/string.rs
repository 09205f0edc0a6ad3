//! Text behind its length in network byte order.

use vstd::prelude::*;
use vstd::utf8::{decode_utf8_encode_utf8, encode_utf8};

use crate::buffer::Buffer;
use crate::codec::{Codec, LosslessCodec};
use crate::endian::{
    byte_power, from_little_endian, law_lowest_byte_first, lemma_byte_powers, lemma_little_endian, little_endian, little_endian_value,
    to_little_endian,
};
use crate::error::Error;
use crate::primitive::{block_to_string, text_of};
use crate::wire::{Emitted, Parsed};

verus! {

/// Writes text behind its length in bytes, highest byte first.
pub struct StringCodec;

/// The lowest `count` bytes of a number, highest first.
pub open spec fn big_endian(number: nat, count: nat) -> Seq<u8> {
    little_endian(number, count).reverse()
}

/// What reading a run of bytes behind its length, highest byte first, gives.
pub open spec fn parse_big_endian_block(bytes: Seq<u8>) -> Parsed<Seq<u8>> {
    if bytes.len() >= 8 {
        let length = little_endian_value(bytes.take(8).reverse());
        if 8 + length <= bytes.len() {
            Parsed { result: Ok(bytes.subrange(8, 8 + length as int)), consumed: 8 + length }
        } else {
            Parsed::eof(bytes)
        }
    } else {
        Parsed::eof(bytes)
    }
}

/// The same bytes in the opposite order.
pub fn reversed(bytes: &Vec<u8>) -> (result: Vec<u8>)
    ensures
        result@ == bytes@.reverse(),
{
    let mut result: Vec<u8> = Vec::new();
    let mut left: usize = bytes.len();
    while left > 0
        invariant
            left <= bytes@.len(),
            result@.len() == bytes@.len() - left,
            forall|i: int| 0 <= i < result@.len() ==> result@[i] == bytes@[bytes@.len() - 1 - i],
        decreases left,
    {
        left = left - 1;
        result.push(bytes[left]);
    }
    assert(result@ =~= bytes@.reverse());
    result
}

impl Codec for StringCodec {
    type Value = String;

    type Model = Seq<char>;

    open spec fn model(value: String) -> Seq<char> {
        value@
    }

    open spec fn emit(value: String) -> Emitted {
        Emitted::of(big_endian(encode_utf8(value@).len(), 8) + encode_utf8(value@))
    }

    open spec fn parse(bytes: Seq<u8>) -> Parsed<Seq<char>> {
        text_of(parse_big_endian_block(bytes))
    }

    proof fn parse_is_within(bytes: Seq<u8>) {
    }

    fn encode(message: &String, buffer: &mut Buffer) -> (result: Result<(), Error>) {
        let ghost before = buffer@;
        let content = message.as_str().as_bytes();
        let length = to_little_endian(content.len() as u128, 8);
        buffer.write_all(reversed(&length).as_slice());
        buffer.write_all(content);
        proof {
            before.lemma_written_twice(big_endian(content@.len(), 8), content@);
        }
        Ok(())
    }

    fn decode(buffer: &mut Buffer) -> (result: Result<String, Error>) {
        let ghost before = buffer@;
        match buffer.read_exact(8) {
            Ok(length) => {
                let count: u64 = from_little_endian(reversed(&length).as_slice());
                let ghost between = buffer@;
                let block = buffer.read_exact(count);
                proof {
                    assert(between.rest =~= before.rest.skip(8));
                    before.lemma_advanced_twice(8, count as nat);
                    if 8 + count <= before.rest.len() {
                        assert(between.rest.take(count as int) =~= before.rest.subrange(
                            8,
                            8 + count as int,
                        ));
                    } else {
                        assert(buffer@ =~= before.advanced(before.rest.len()));
                    }
                }
                match block {
                    Ok(content) => block_to_string(content),
                    Err(error) => Err(error),
                }
            },
            Err(error) => {
                assert(buffer@ =~= before.advanced(before.rest.len()));
                Err(error)
            },
        }
    }
}

impl LosslessCodec for StringCodec {
    open spec fn fits(value: String) -> bool {
        encode_utf8(value@).len() <= u64::MAX
    }

    proof fn law_round_trip(value: String, tail: Seq<u8>) {
        let content = encode_utf8(value@);
        let length = little_endian(content.len(), 8);
        let all = big_endian(content.len(), 8) + content + tail;
        lemma_byte_powers();
        lemma_little_endian(content.len(), 8);
        assert(all.take(8) =~= length.reverse());
        assert(all.take(8).reverse() =~= length);
        assert(all.subrange(8, 8 + content.len() as int) =~= content);
        vstd::utf8::encode_utf8_valid_utf8(value@);
        vstd::utf8::encode_utf8_decode_utf8(value@);
    }
}

/// Text is its bytes behind their number, whose highest byte comes first.
pub proof fn law_highest_byte_first(value: String, place: int)
    requires
        0 <= place < 8,
    ensures
        StringCodec::emit(value).error is None,
        StringCodec::emit(value).bytes.len() == 8 + encode_utf8(value@).len(),
        StringCodec::emit(value).bytes[place] == (encode_utf8(value@).len() / byte_power(
            (7 - place) as nat,
        )) % 256,
        StringCodec::emit(value).bytes.skip(8) == encode_utf8(value@),
{
    let number = encode_utf8(value@).len();
    law_lowest_byte_first(number, 8, (7 - place) as nat);
    assert(big_endian(number, 8)[place] == little_endian(number, 8)[7 - place]);
    assert(StringCodec::emit(value).bytes.skip(8) =~= encode_utf8(value@));
}

/// Text is read from as many bytes as were announced, and from no fewer.
pub proof fn law_announced_length(bytes: Seq<u8>, length: nat)
    requires
        bytes.len() >= 8,
        bytes.take(8) == big_endian(length, 8),
        length <= u64::MAX,
    ensures
        StringCodec::parse(bytes).result is Ok ==> encode_utf8(StringCodec::parse(bytes).result->Ok_0)
            == bytes.subrange(8, 8 + length as int) && StringCodec::parse(bytes).consumed == 8
            + length,
        bytes.len() < 8 + length ==> StringCodec::parse(bytes).result == Err::<Seq<char>, Error>(
            Error::UnexpectedEof,
        ),
{
    lemma_byte_powers();
    lemma_little_endian(length, 8);
    assert(bytes.take(8).reverse() =~= little_endian(length, 8));
    if StringCodec::parse(bytes).result is Ok {
        decode_utf8_encode_utf8(bytes.subrange(8, 8 + length as int));
    }
}

} // verus!
