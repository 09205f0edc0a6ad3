//! Packets as messages.

use vstd::prelude::*;

use crate::error::Error;

verus! {

/// A way to turn messages into packets and back that may keep state.
pub trait PacketSerializer<Message>: Sized {
    /// Whether writing `message` behind `before` can give these.
    spec fn encodes(
        self,
        message: Message,
        before: Seq<u8>,
        after: Self,
        bytes: Seq<u8>,
        result: Result<(), Error>,
    ) -> bool;

    /// Whether reading `bytes` can give these.
    spec fn decodes(self, bytes: Seq<u8>, after: Self, result: Result<Message, Error>) -> bool;

    fn encode(&mut self, message: &Message, buffer: &mut Vec<u8>) -> (result: Result<(), Error>)
        ensures
            old(self).encodes(*message, old(buffer)@, *final(self), final(buffer)@, result),
    ;

    fn decode(&mut self, buffer: &[u8]) -> (result: Result<Message, Error>)
        ensures
            old(self).decodes(buffer@, *final(self), result),
    ;
}

/// Takes messages of bytes as they are.
pub struct RawBytesPacketSerializer;

impl PacketSerializer<Vec<u8>> for RawBytesPacketSerializer {
    open spec fn encodes(
        self,
        message: Vec<u8>,
        before: Seq<u8>,
        after: Self,
        bytes: Seq<u8>,
        result: Result<(), Error>,
    ) -> bool {
        result is Ok && bytes == before + message@
    }

    open spec fn decodes(self, bytes: Seq<u8>, after: Self, result: Result<Vec<u8>, Error>) -> bool {
        result matches Ok(message) && message@ == bytes
    }

    fn encode(&mut self, message: &Vec<u8>, buffer: &mut Vec<u8>) -> (result: Result<(), Error>) {
        buffer.extend_from_slice(message.as_slice());
        assert(buffer@ =~= old(buffer)@ + message@);
        Ok(())
    }

    fn decode(&mut self, buffer: &[u8]) -> (result: Result<Vec<u8>, Error>) {
        Ok(vstd::slice::slice_to_vec(buffer))
    }
}

/// What was written into an empty packet is read back.
pub proof fn law_raw_bytes_round_trip(
    writer: RawBytesPacketSerializer,
    message: Vec<u8>,
    written: RawBytesPacketSerializer,
    bytes: Seq<u8>,
    reader: RawBytesPacketSerializer,
    read: RawBytesPacketSerializer,
    result: Result<Vec<u8>, Error>,
)
    requires
        writer.encodes(message, Seq::empty(), written, bytes, Ok(())),
        reader.decodes(bytes, read, result),
    ensures
        result is Ok,
        result->Ok_0@ == message@,
{
    assert(Seq::<u8>::empty() + message@ =~= message@);
}

} // verus!
