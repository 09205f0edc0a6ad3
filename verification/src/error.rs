//! What can go wrong.

use vstd::prelude::*;

verus! {

/// The reason an operation was refused.
#[derive(Debug, Clone, Copy, PartialEq, Eq, Structural)]
pub enum Error {
    /// The bytes ended before the value did.
    UnexpectedEof,
    /// A variable length number does not fit in 64 bits.
    NumberOverflow,
    /// A number is not the code of a character.
    InvalidChar,
    /// Bytes that should be text are not UTF-8.
    InvalidUtf8,
    /// A flag byte has neither of its two values.
    InvalidFlag,
    /// A value took another number of bytes than was announced.
    LengthMismatch,
    /// Nobody is left at the other end of a channel.
    ChannelClosed,
    /// A peer does not write to that channel.
    NoSender(u64),
    /// A peer does not read from that channel.
    NoReceiver(u64),
    /// A channel carries messages of another type.
    MessageTypeDiffers(u64),
    /// Data that others share is not to be changed.
    Frozen,
    /// There is no data of that type.
    NoUserData(u64),
    /// Nobody told how to make a peer of that role.
    UnknownRole(u64),
    /// There is a peer with that number already.
    PeerExists(u64),
    /// The meeting is over.
    MeetingDestroyed,
    /// A call is neither a request nor a response.
    UnknownRpcKind,
    /// A call is about other types.
    RpcTypeMismatch,
    /// A response cannot be called.
    NotARequest,
    /// A request has no result.
    NotAResponse,
    /// There is no replica with that number.
    NoReplica(u64),
    /// There is a replica with that number already.
    ReplicaExists(u64),
    /// A session is over.
    SessionTerminated,
    /// The role of the authority is not for others.
    AuthorityRole,
    /// The peer of the authority is not to be touched.
    AuthorityPeer,
    /// The authority is not there yet.
    NoAuthority,
    /// A frame has a type that nobody knows.
    UnknownFrame,
    /// A text is not that of a decimal number.
    NotADecimal,
    /// There is no frame of commands at the given tick.
    NoFrame(u64),
    /// There is no value at the given tick.
    MissingValue(u64),
}

} // verus!
