//! Bytes behind their length.

use vstd::prelude::*;

use crate::buffer::Buffer;
use crate::codec::{Codec, LosslessCodec};
use crate::endian::little_endian;
use crate::error::Error;
use crate::primitive::{block_bytes, law_block_round_trip, law_blocks_are_counted, parse_block, read_block, write_block};
use crate::wire::{Emitted, Parsed};

verus! {

/// Writes bytes behind their number. Values that a serializer turned into bytes go through here.
pub struct BlockCodec;

impl Codec for BlockCodec {
    type Value = Vec<u8>;

    type Model = Seq<u8>;

    open spec fn model(value: Vec<u8>) -> Seq<u8> {
        value@
    }

    open spec fn emit(value: Vec<u8>) -> Emitted {
        Emitted::of(block_bytes(value@))
    }

    open spec fn parse(bytes: Seq<u8>) -> Parsed<Seq<u8>> {
        parse_block(bytes)
    }

    proof fn parse_is_within(bytes: Seq<u8>) {
    }

    fn encode(message: &Vec<u8>, buffer: &mut Buffer) -> (result: Result<(), Error>) {
        write_block(buffer, message.as_slice());
        Ok(())
    }

    fn decode(buffer: &mut Buffer) -> (result: Result<Vec<u8>, Error>) {
        read_block(buffer)
    }
}

impl LosslessCodec for BlockCodec {
    open spec fn fits(value: Vec<u8>) -> bool {
        value@.len() <= u64::MAX
    }

    proof fn law_round_trip(value: Vec<u8>, tail: Seq<u8>) {
        law_block_round_trip(value@, tail);
    }
}

/// A block is its length in eight bytes, lowest first, and then the bytes as they are.
pub proof fn law_bytes_behind_their_length(value: Vec<u8>)
    requires
        value@.len() <= u64::MAX,
    ensures
        BlockCodec::emit(value).error is None,
        BlockCodec::emit(value).bytes.take(8) == little_endian(value@.len(), 8),
        BlockCodec::emit(value).bytes.skip(8) == value@,
{
    law_blocks_are_counted(value@, 0);
}

} // verus!
