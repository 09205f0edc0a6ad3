//! What machines tell each other.

use vstd::prelude::*;

use crate::buffer::Buffer;
use crate::channel::ChannelId;
use crate::endian::{
    law_little_endian_round_trip, lemma_byte_powers, lemma_little_endian,
    lemma_little_endian_value, little_endian, parse_little_endian, read_little_endian,
    write_little_endian,
};
use crate::engine::EngineId;
use crate::error::Error;
use crate::peer::{PeerId, PeerRoleId};
use crate::primitive::{parse_byte, read_byte};
use crate::wire::Parsed;

verus! {

/// Control frames are low-level backend-side communication protocol for control
/// over a peer lifetime.
#[derive(Debug, Clone, Copy, PartialEq, Eq, Hash, Structural)]
pub enum ProtocolControlFrame {
    Heartbeat { timestamp: u64 },
    CreatePeer(PeerId, PeerRoleId),
    DestroyPeer(PeerId),
}

/// What reading a number of eight bytes gives.
pub open spec fn parse_number(bytes: Seq<u8>) -> Parsed<u64> {
    let number = parse_little_endian(bytes, 8);
    Parsed {
        result: match number.result {
            Ok(value) => Ok(value as u64),
            Err(error) => Err(error),
        },
        consumed: number.consumed,
    }
}

/// Reads a number of eight bytes.
pub fn read_number(stream: &mut Buffer) -> (result: Result<u64, Error>)
    ensures
        result == parse_number(old(stream)@.rest).result,
        final(stream)@ == old(stream)@.advanced(parse_number(old(stream)@.rest).consumed),
{
    proof {
        lemma_byte_powers();
        lemma_little_endian_value(stream@.rest.take(8));
    }
    read_little_endian(stream, 8)
}

/// Writes a number of eight bytes.
fn write_number(stream: &mut Buffer, number: u64)
    ensures
        final(stream)@ == old(stream)@.written(little_endian(number as nat, 8)),
{
    write_little_endian(stream, number as u128, 8);
}

proof fn lemma_number_round_trip(number: u64, tail: Seq<u8>)
    ensures
        little_endian(number as nat, 8).len() == 8,
        parse_number(little_endian(number as nat, 8) + tail) == (Parsed {
            result: Ok::<u64, Error>(number),
            consumed: 8,
        }),
{
    lemma_byte_powers();
    lemma_little_endian(number as nat, 8);
    law_little_endian_round_trip(number as nat, 8, tail);
}

impl ProtocolControlFrame {
    /// The bytes of the frame: its type, and behind it its numbers.
    pub open spec fn bytes(self) -> Seq<u8> {
        match self {
            ProtocolControlFrame::Heartbeat { timestamp } => seq![0u8] + little_endian(
                timestamp as nat,
                8,
            ),
            ProtocolControlFrame::CreatePeer(peer_id, role_id) => seq![1u8] + little_endian(
                peer_id.0 as nat,
                8,
            ) + little_endian(role_id.0 as nat, 8),
            ProtocolControlFrame::DestroyPeer(peer_id) => seq![2u8] + little_endian(
                peer_id.0 as nat,
                8,
            ),
        }
    }

    /// What reading a frame from `bytes` gives.
    pub open spec fn parse(bytes: Seq<u8>) -> Parsed<ProtocolControlFrame> {
        let tag = parse_byte(bytes);
        let first = parse_number(bytes.skip(1));
        match tag.result {
            Err(error) => Parsed { result: Err(error), consumed: tag.consumed },
            Ok(kind) => if kind > 2 {
                Parsed { result: Err(Error::UnknownFrame), consumed: 1 }
            } else {
                match first.result {
                    Err(error) => Parsed { result: Err(error), consumed: 1 + first.consumed },
                    Ok(number) => if kind == 0 {
                        Parsed {
                            result: Ok(ProtocolControlFrame::Heartbeat { timestamp: number }),
                            consumed: 1 + first.consumed,
                        }
                    } else if kind == 2 {
                        Parsed {
                            result: Ok(ProtocolControlFrame::DestroyPeer(PeerId(number))),
                            consumed: 1 + first.consumed,
                        }
                    } else {
                        let second = parse_number(bytes.skip(1 + first.consumed as int));
                        Parsed {
                            result: match second.result {
                                Ok(role) => Ok(
                                    ProtocolControlFrame::CreatePeer(
                                        PeerId(number),
                                        PeerRoleId(role),
                                    ),
                                ),
                                Err(error) => Err(error),
                            },
                            consumed: 1 + first.consumed + second.consumed,
                        }
                    },
                }
            },
        }
    }

    /// Reading takes no more bytes than there are.
    pub proof fn lemma_parse_is_within(bytes: Seq<u8>)
        ensures
            Self::parse(bytes).consumed <= bytes.len(),
    {
    }

    /// Reading gives back the frame that was written, and takes exactly its bytes.
    pub proof fn law_round_trip(self, tail: Seq<u8>)
        ensures
            Self::parse(self.bytes() + tail) == (Parsed {
                result: Ok::<ProtocolControlFrame, Error>(self),
                consumed: self.bytes().len(),
            }),
    {
        let all = self.bytes() + tail;
        match self {
            ProtocolControlFrame::Heartbeat { timestamp } => {
                lemma_number_round_trip(timestamp, tail);
                assert(all.skip(1) =~= little_endian(timestamp as nat, 8) + tail);
            },
            ProtocolControlFrame::CreatePeer(peer_id, role_id) => {
                let second = little_endian(role_id.0 as nat, 8);
                lemma_number_round_trip(peer_id.0, second + tail);
                lemma_number_round_trip(role_id.0, tail);
                assert(all.skip(1) =~= little_endian(peer_id.0 as nat, 8) + (second + tail));
                assert(all.skip(9) =~= second + tail);
            },
            ProtocolControlFrame::DestroyPeer(peer_id) => {
                lemma_number_round_trip(peer_id.0, tail);
                assert(all.skip(1) =~= little_endian(peer_id.0 as nat, 8) + tail);
            },
        }
    }

    /// Writes the frame at the cursor.
    pub fn write(&self, stream: &mut Buffer) -> (result: Result<(), Error>)
        ensures
            result is Ok,
            final(stream)@ == old(stream)@.written(self.bytes()),
    {
        let ghost before = stream@;
        match self {
            ProtocolControlFrame::Heartbeat { timestamp } => {
                stream.write_byte(0);
                write_number(stream, *timestamp);
                proof {
                    before.lemma_written_twice(seq![0u8], little_endian(*timestamp as nat, 8));
                }
            },
            ProtocolControlFrame::CreatePeer(peer_id, role_id) => {
                stream.write_byte(1);
                write_number(stream, peer_id.0);
                write_number(stream, role_id.0);
                proof {
                    let first = little_endian(peer_id.0 as nat, 8);
                    before.lemma_written_twice(seq![1u8], first);
                    before.lemma_written_twice(
                        seq![1u8] + first,
                        little_endian(role_id.0 as nat, 8),
                    );
                }
            },
            ProtocolControlFrame::DestroyPeer(peer_id) => {
                stream.write_byte(2);
                write_number(stream, peer_id.0);
                proof {
                    before.lemma_written_twice(seq![2u8], little_endian(peer_id.0 as nat, 8));
                }
            },
        }
        Ok(())
    }

    /// Reads a frame from the cursor on.
    pub fn read(stream: &mut Buffer) -> (result: Result<ProtocolControlFrame, Error>)
        ensures
            result == Self::parse(old(stream)@.rest).result,
            final(stream)@ == old(stream)@.advanced(Self::parse(old(stream)@.rest).consumed),
    {
        let ghost before = stream@;
        let ghost first = parse_number(before.rest.skip(1));
        proof {
            before.lemma_advanced_twice(1, first.consumed);
            before.lemma_advanced_twice(
                1 + first.consumed,
                parse_number(before.rest.skip(1 + first.consumed as int)).consumed,
            );
        }
        match read_byte(stream) {
            Err(error) => Err(error),
            Ok(kind) => {
                if kind > 2 {
                    return Err(Error::UnknownFrame);
                }
                match read_number(stream) {
                    Err(error) => Err(error),
                    Ok(number) => {
                        assert(stream@.rest =~= before.rest.skip(1 + first.consumed as int));
                        if kind == 0 {
                            Ok(ProtocolControlFrame::Heartbeat { timestamp: number })
                        } else if kind == 2 {
                            Ok(ProtocolControlFrame::DestroyPeer(PeerId(number)))
                        } else {
                            match read_number(stream) {
                                Ok(role) => Ok(
                                    ProtocolControlFrame::CreatePeer(
                                        PeerId(number),
                                        PeerRoleId(role),
                                    ),
                                ),
                                Err(error) => Err(error),
                            }
                        }
                    },
                }
            },
        }
    }
}

/// Packet frames are low-level backend-side communication protocol for
/// transporting data packets between peers over channels.
#[derive(Debug, Clone, PartialEq, Eq, Hash)]
pub struct ProtocolPacketFrame {
    pub peer_id: PeerId,
    pub channel_id: ChannelId,
    pub data: Vec<u8>,
}

/// What a [`ProtocolPacketFrame`] says.
#[verifier::ext_equal]
pub struct PacketFrameView {
    pub peer_id: PeerId,
    pub channel_id: ChannelId,
    pub data: Seq<u8>,
}

impl View for ProtocolPacketFrame {
    type V = PacketFrameView;

    open spec fn view(&self) -> PacketFrameView {
        PacketFrameView {
            peer_id: self.peer_id,
            channel_id: self.channel_id,
            data: self.data@,
        }
    }
}

impl PacketFrameView {
    /// The bytes of the frame: peer, channel, length of the data in four bytes, and the data.
    pub open spec fn bytes(self) -> Seq<u8> {
        little_endian(self.peer_id.0 as nat, 8) + little_endian(self.channel_id.0 as nat, 8)
            + little_endian(self.data.len(), 4) + self.data
    }

    /// What reading a frame from `bytes` gives.
    pub open spec fn parse(bytes: Seq<u8>) -> Parsed<PacketFrameView> {
        if bytes.len() < 20 {
            Parsed::eof(bytes)
        } else {
            let length = parse_little_endian(bytes.skip(16), 4).result->Ok_0;
            if bytes.len() < 20 + length {
                Parsed::eof(bytes)
            } else {
                Parsed {
                    result: Ok(
                        PacketFrameView {
                            peer_id: PeerId(parse_number(bytes).result->Ok_0),
                            channel_id: ChannelId(parse_number(bytes.skip(8)).result->Ok_0),
                            data: bytes.subrange(20, 20 + length as int),
                        },
                    ),
                    consumed: 20 + length,
                }
            }
        }
    }

    /// Reading gives back the frame that was written, and takes exactly its bytes.
    pub proof fn law_round_trip(self, tail: Seq<u8>)
        requires
            self.data.len() <= u32::MAX,
        ensures
            Self::parse(self.bytes() + tail) == (Parsed {
                result: Ok::<PacketFrameView, Error>(self),
                consumed: self.bytes().len(),
            }),
    {
        let all = self.bytes() + tail;
        let peer = little_endian(self.peer_id.0 as nat, 8);
        let channel = little_endian(self.channel_id.0 as nat, 8);
        let length = little_endian(self.data.len(), 4);
        lemma_byte_powers();
        lemma_number_round_trip(self.peer_id.0, channel + (length + (self.data + tail)));
        lemma_number_round_trip(self.channel_id.0, length + (self.data + tail));
        lemma_little_endian(self.data.len(), 4);
        law_little_endian_round_trip(self.data.len(), 4, self.data + tail);
        assert(all =~= peer + (channel + (length + (self.data + tail))));
        assert(all.skip(8) =~= channel + (length + (self.data + tail)));
        assert(all.skip(16) =~= length + (self.data + tail));
        assert(all.subrange(20, 20 + self.data.len() as int) =~= self.data);
    }
}

impl ProtocolPacketFrame {
    /// Writes the frame at the cursor.
    pub fn write(&self, stream: &mut Buffer) -> (result: Result<(), Error>)
        ensures
            result is Ok,
            final(stream)@ == old(stream)@.written(self@.bytes()),
    {
        let ghost before = stream@;
        write_number(stream, self.peer_id.0);
        write_number(stream, self.channel_id.0);
        write_little_endian(stream, self.data.len() as u128, 4);
        stream.write_all(self.data.as_slice());
        proof {
            let peer = little_endian(self.peer_id.0 as nat, 8);
            let channel = little_endian(self.channel_id.0 as nat, 8);
            let length = little_endian(self.data@.len(), 4);
            before.lemma_written_twice(peer, channel);
            before.lemma_written_twice(peer + channel, length);
            before.lemma_written_twice(peer + channel + length, self.data@);
        }
        Ok(())
    }

    /// Reads a frame from the cursor on.
    pub fn read(stream: &mut Buffer) -> (result: Result<ProtocolPacketFrame, Error>)
        ensures
            match result {
                Ok(frame) => PacketFrameView::parse(old(stream)@.rest).result == Ok::<
                    PacketFrameView,
                    Error,
                >(frame@),
                Err(error) => PacketFrameView::parse(old(stream)@.rest).result == Err::<
                    PacketFrameView,
                    Error,
                >(error),
            },
            final(stream)@ == old(stream)@.advanced(
                PacketFrameView::parse(old(stream)@.rest).consumed,
            ),
    {
        let ghost before = stream@;
        let ghost bytes = before.rest;
        proof {
            before.lemma_advanced_twice(8, 8);
            before.lemma_advanced_twice(16, 4);
        }
        let peer: u64 = match read_number(stream) {
            Ok(peer) => peer,
            Err(error) => {
                assert(stream@ =~= before.advanced(bytes.len()));
                return Err(error);
            },
        };
        assert(stream@.rest =~= bytes.skip(8));
        let channel: u64 = match read_number(stream) {
            Ok(channel) => channel,
            Err(error) => {
                assert(stream@ =~= before.advanced(bytes.len()));
                return Err(error);
            },
        };
        assert(stream@.rest =~= bytes.skip(16));
        let length: u64 = match read_little_endian(stream, 4) {
            Ok(length) => length,
            Err(error) => {
                assert(stream@ =~= before.advanced(bytes.len()));
                return Err(error);
            },
        };
        assert(stream@.rest =~= bytes.skip(20));
        let ghost between = stream@;
        proof {
            before.lemma_advanced_twice(20, length as nat);
        }
        match stream.read_exact(length) {
            Ok(data) => {
                assert(between.rest.take(length as int) =~= bytes.subrange(
                    20,
                    20 + length as int,
                ));
                Ok(
                    ProtocolPacketFrame {
                        peer_id: PeerId(peer),
                        channel_id: ChannelId(channel),
                        data,
                    },
                )
            },
            Err(error) => {
                assert(stream@ =~= before.advanced(bytes.len()));
                Err(error)
            },
        }
    }
}

/// Protocol frames are either control frames or packet frames.
#[derive(Debug, Clone, PartialEq, Eq, Hash)]
pub enum ProtocolFrame {
    Control(ProtocolControlFrame),
    Packet(ProtocolPacketFrame),
}

/// What a [`ProtocolFrame`] says.
#[verifier::ext_equal]
pub enum FrameView {
    Control(ProtocolControlFrame),
    Packet(PacketFrameView),
}

impl View for ProtocolFrame {
    type V = FrameView;

    open spec fn view(&self) -> FrameView {
        match self {
            ProtocolFrame::Control(frame) => FrameView::Control(*frame),
            ProtocolFrame::Packet(frame) => FrameView::Packet(frame@),
        }
    }
}

impl FrameView {
    /// The bytes of the frame: its type, and behind it the frame.
    pub open spec fn bytes(self) -> Seq<u8> {
        match self {
            FrameView::Control(frame) => seq![1u8] + frame.bytes(),
            FrameView::Packet(frame) => seq![2u8] + frame.bytes(),
        }
    }

    /// Whether the length of the data fits in four bytes.
    pub open spec fn fits(self) -> bool {
        self matches FrameView::Packet(frame) ==> frame.data.len() <= u32::MAX
    }

    /// What reading a frame from `bytes` gives.
    pub open spec fn parse(bytes: Seq<u8>) -> Parsed<FrameView> {
        let tag = parse_byte(bytes);
        match tag.result {
            Err(error) => Parsed { result: Err(error), consumed: tag.consumed },
            Ok(kind) => if kind == 1 {
                let frame = ProtocolControlFrame::parse(bytes.skip(1));
                Parsed {
                    result: match frame.result {
                        Ok(control) => Ok(FrameView::Control(control)),
                        Err(error) => Err(error),
                    },
                    consumed: 1 + frame.consumed,
                }
            } else if kind == 2 {
                let frame = PacketFrameView::parse(bytes.skip(1));
                Parsed {
                    result: match frame.result {
                        Ok(packet) => Ok(FrameView::Packet(packet)),
                        Err(error) => Err(error),
                    },
                    consumed: 1 + frame.consumed,
                }
            } else {
                Parsed { result: Err(Error::UnknownFrame), consumed: 1 }
            },
        }
    }

    /// Reading takes at least one byte, unless there is none, and no more than there are.
    pub proof fn lemma_parse_is_within(bytes: Seq<u8>)
        ensures
            Self::parse(bytes).consumed <= bytes.len(),
            bytes.len() > 0 ==> Self::parse(bytes).consumed > 0,
    {
        if bytes.len() > 0 {
            ProtocolControlFrame::lemma_parse_is_within(bytes.skip(1));
        }
    }

    /// Reading gives back the frame that was written, and takes exactly its bytes.
    pub proof fn law_round_trip(self, tail: Seq<u8>)
        requires
            self.fits(),
        ensures
            Self::parse(self.bytes() + tail) == (Parsed {
                result: Ok::<FrameView, Error>(self),
                consumed: self.bytes().len(),
            }),
    {
        let all = self.bytes() + tail;
        match self {
            FrameView::Control(frame) => {
                frame.law_round_trip(tail);
                assert(all.skip(1) =~= frame.bytes() + tail);
            },
            FrameView::Packet(frame) => {
                frame.law_round_trip(tail);
                assert(all.skip(1) =~= frame.bytes() + tail);
            },
        }
    }
}

impl ProtocolFrame {
    /// Writes the frame at the cursor.
    pub fn write(&self, stream: &mut Buffer) -> (result: Result<(), Error>)
        ensures
            result is Ok,
            final(stream)@ == old(stream)@.written(self@.bytes()),
    {
        let ghost before = stream@;
        match self {
            ProtocolFrame::Control(frame) => {
                stream.write_byte(1);
                proof {
                    before.lemma_written_twice(seq![1u8], frame.bytes());
                }
                frame.write(stream)
            },
            ProtocolFrame::Packet(frame) => {
                stream.write_byte(2);
                proof {
                    before.lemma_written_twice(seq![2u8], frame@.bytes());
                }
                frame.write(stream)
            },
        }
    }

    /// Reads a frame from the cursor on.
    pub fn read(stream: &mut Buffer) -> (result: Result<ProtocolFrame, Error>)
        ensures
            match result {
                Ok(frame) => FrameView::parse(old(stream)@.rest).result == Ok::<FrameView, Error>(
                    frame@,
                ),
                Err(error) => FrameView::parse(old(stream)@.rest).result == Err::<
                    FrameView,
                    Error,
                >(error),
            },
            final(stream)@ == old(stream)@.advanced(FrameView::parse(old(stream)@.rest).consumed),
    {
        let ghost before = stream@;
        proof {
            before.lemma_advanced_twice(
                1,
                ProtocolControlFrame::parse(before.rest.skip(1)).consumed,
            );
            before.lemma_advanced_twice(1, PacketFrameView::parse(before.rest.skip(1)).consumed);
        }
        match read_byte(stream) {
            Err(error) => Err(error),
            Ok(kind) => if kind == 1 {
                match ProtocolControlFrame::read(stream) {
                    Ok(frame) => Ok(ProtocolFrame::Control(frame)),
                    Err(error) => Err(error),
                }
            } else if kind == 2 {
                match ProtocolPacketFrame::read(stream) {
                    Ok(frame) => Ok(ProtocolFrame::Packet(frame)),
                    Err(error) => Err(error),
                }
            } else {
                Err(Error::UnknownFrame)
            },
        }
    }
}

/// A packet, and which machines it is for.
#[derive(Debug)]
pub struct ProtocolPacketData {
    pub data: Vec<u8>,
    /// The machines that are to get the packet: all, if none is named.
    pub recepients: Vec<EngineId>,
    /// The machine that the packet comes from, if that is known.
    pub sender: Option<EngineId>,
}

/// What a [`ProtocolPacketData`] says.
#[verifier::ext_equal]
pub struct PacketDataView {
    pub data: Seq<u8>,
    pub recepients: Seq<EngineId>,
    pub sender: Option<EngineId>,
}

impl View for ProtocolPacketData {
    type V = PacketDataView;

    open spec fn view(&self) -> PacketDataView {
        PacketDataView { data: self.data@, recepients: self.recepients@, sender: self.sender }
    }
}

impl PacketDataView {
    /// Whether the machine is to get the packet.
    pub open spec fn is_for(self, engine_id: EngineId) -> bool {
        self.recepients.len() == 0 || self.recepients.contains(engine_id)
    }
}

impl ProtocolPacketData {
    /// A packet for all machines.
    pub fn new(data: Vec<u8>) -> (result: Self)
        ensures
            result@ == (PacketDataView {
                data: data@,
                recepients: Seq::empty(),
                sender: None,
            }),
    {
        let result = ProtocolPacketData { data, recepients: Vec::new(), sender: None };
        assert(result@ =~= (PacketDataView {
            data: data@,
            recepients: Seq::empty(),
            sender: None,
        }));
        result
    }

    /// Whether the machine is to get the packet.
    pub fn is_for(&self, engine_id: EngineId) -> (result: bool)
        ensures
            result == self@.is_for(engine_id),
    {
        if self.recepients.len() == 0 {
            return true;
        }
        let mut i: usize = 0;
        while i < self.recepients.len()
            invariant
                i <= self.recepients@.len(),
                forall|k: int| 0 <= k < i ==> self.recepients@[k] != engine_id,
            decreases self.recepients@.len() - i,
        {
            if self.recepients[i] == engine_id {
                assert(self.recepients@[i as int] == engine_id);
                return true;
            }
            i = i + 1;
        }
        false
    }

    /// The same packet once more.
    pub fn copy(&self) -> (result: Self)
        ensures
            result@ == self@,
    {
        let mut recepients: Vec<EngineId> = Vec::new();
        let mut i: usize = 0;
        while i < self.recepients.len()
            invariant
                i <= self.recepients@.len(),
                recepients@ == self.recepients@.take(i as int),
            decreases self.recepients@.len() - i,
        {
            recepients.push(self.recepients[i]);
            assert(self.recepients@.take(i + 1) =~= self.recepients@.take(i as int).push(
                self.recepients@[i as int],
            ));
            i = i + 1;
        }
        assert(self.recepients@.take(i as int) =~= self.recepients@);
        ProtocolPacketData {
            data: vstd::slice::slice_to_vec(self.data.as_slice()),
            recepients,
            sender: self.sender,
        }
    }
}

/// What machines hand each other through a meeting: a control frame, or a packet of a peer
/// with the machines that it is for.
#[derive(Debug)]
pub enum RoutedFrame {
    Control(ProtocolControlFrame),
    Packet(PeerId, ChannelId, ProtocolPacketData),
}

/// What a [`RoutedFrame`] says.
#[verifier::ext_equal]
pub enum RoutedFrameView {
    Control(ProtocolControlFrame),
    Packet(PeerId, ChannelId, PacketDataView),
}

impl View for RoutedFrame {
    type V = RoutedFrameView;

    open spec fn view(&self) -> RoutedFrameView {
        match self {
            RoutedFrame::Control(frame) => RoutedFrameView::Control(*frame),
            RoutedFrame::Packet(peer_id, channel_id, packet) => RoutedFrameView::Packet(
                *peer_id,
                *channel_id,
                packet@,
            ),
        }
    }
}

impl RoutedFrameView {
    /// Whether the machine is to get the frame.
    pub open spec fn is_for(self, engine_id: EngineId) -> bool {
        match self {
            RoutedFrameView::Control(_) => true,
            RoutedFrameView::Packet(_, _, packet) => packet.is_for(engine_id),
        }
    }

    /// A frame that came over the wire: for all machines, from nobody knows which.
    pub open spec fn from_wire(frame: FrameView) -> Self {
        match frame {
            FrameView::Control(control) => RoutedFrameView::Control(control),
            FrameView::Packet(packet) => RoutedFrameView::Packet(
                packet.peer_id,
                packet.channel_id,
                PacketDataView { data: packet.data, recepients: Seq::empty(), sender: None },
            ),
        }
    }

    /// What of the frame goes over the wire.
    pub open spec fn on_wire(self) -> FrameView {
        match self {
            RoutedFrameView::Control(frame) => FrameView::Control(frame),
            RoutedFrameView::Packet(peer_id, channel_id, packet) => FrameView::Packet(
                PacketFrameView { peer_id, channel_id, data: packet.data },
            ),
        }
    }
}

impl RoutedFrame {
    /// Whether the machine is to get the frame.
    pub fn is_for(&self, engine_id: EngineId) -> (result: bool)
        ensures
            result == self@.is_for(engine_id),
    {
        match self {
            RoutedFrame::Control(_) => true,
            RoutedFrame::Packet(_, _, packet) => packet.is_for(engine_id),
        }
    }

    /// The same frame once more.
    pub fn copy(&self) -> (result: Self)
        ensures
            result@ == self@,
    {
        match self {
            RoutedFrame::Control(frame) => RoutedFrame::Control(*frame),
            RoutedFrame::Packet(peer_id, channel_id, packet) => RoutedFrame::Packet(
                *peer_id,
                *channel_id,
                packet.copy(),
            ),
        }
    }

    /// The frame as it goes over the wire, without the machines that it is for.
    pub fn into_protocol_frame(self) -> (result: ProtocolFrame)
        ensures
            result@ == self@.on_wire(),
    {
        match self {
            RoutedFrame::Control(frame) => ProtocolFrame::Control(frame),
            RoutedFrame::Packet(peer_id, channel_id, packet) => ProtocolFrame::Packet(
                ProtocolPacketFrame { peer_id, channel_id, data: packet.data },
            ),
        }
    }

    /// A frame that came over the wire: for all machines, from nobody knows which.
    pub fn from_protocol_frame(frame: ProtocolFrame) -> (result: Self)
        ensures
            result@ == RoutedFrameView::from_wire(frame@),
    {
        match frame {
            ProtocolFrame::Control(frame) => RoutedFrame::Control(frame),
            ProtocolFrame::Packet(frame) => RoutedFrame::Packet(
                frame.peer_id,
                frame.channel_id,
                ProtocolPacketData::new(frame.data),
            ),
        }
    }
}

/// How frames look on the wire: a byte for control or packet, for control frames a byte for what
/// they say, and then numbers of eight bytes each, the lowest byte first; for packets the length
/// of their data in four bytes, and the data.
pub proof fn law_frames_on_the_wire(
    timestamp: u64,
    peer_id: PeerId,
    role_id: PeerRoleId,
    packet: PacketFrameView,
)
    ensures
        FrameView::Control(ProtocolControlFrame::Heartbeat { timestamp }).bytes() == seq![1u8, 0u8]
            + little_endian(timestamp as nat, 8),
        FrameView::Control(ProtocolControlFrame::CreatePeer(peer_id, role_id)).bytes() == seq![
            1u8,
            1u8,
        ] + little_endian(peer_id.0 as nat, 8) + little_endian(role_id.0 as nat, 8),
        FrameView::Control(ProtocolControlFrame::DestroyPeer(peer_id)).bytes() == seq![1u8, 2u8]
            + little_endian(peer_id.0 as nat, 8),
        FrameView::Packet(packet).bytes() == seq![2u8] + little_endian(
            packet.peer_id.0 as nat,
            8,
        ) + little_endian(packet.channel_id.0 as nat, 8) + little_endian(packet.data.len(), 4)
            + packet.data,
{
    assert(FrameView::Control(ProtocolControlFrame::Heartbeat { timestamp }).bytes() =~= seq![
        1u8,
        0u8,
    ] + little_endian(timestamp as nat, 8));
    assert(FrameView::Control(ProtocolControlFrame::CreatePeer(peer_id, role_id)).bytes() =~= seq![
        1u8,
        1u8,
    ] + little_endian(peer_id.0 as nat, 8) + little_endian(role_id.0 as nat, 8));
    assert(FrameView::Control(ProtocolControlFrame::DestroyPeer(peer_id)).bytes() =~= seq![
        1u8,
        2u8,
    ] + little_endian(peer_id.0 as nat, 8));
    assert(FrameView::Packet(packet).bytes() =~= seq![2u8] + little_endian(
        packet.peer_id.0 as nat,
        8,
    ) + little_endian(packet.channel_id.0 as nat, 8) + little_endian(packet.data.len(), 4)
        + packet.data);
}

/// Bytes that begin as no frame does are refused, and so is nothing at all.
pub proof fn law_unknown_frames_are_refused(bytes: Seq<u8>)
    ensures
        bytes.len() == 0 ==> FrameView::parse(bytes).result == Err::<FrameView, Error>(
            Error::UnexpectedEof,
        ),
        bytes.len() > 0 && bytes[0] != 1 && bytes[0] != 2 ==> FrameView::parse(bytes).result
            == Err::<FrameView, Error>(Error::UnknownFrame),
        bytes.len() > 1 && bytes[0] == 1 && bytes[1] > 2 ==> FrameView::parse(bytes).result
            == Err::<FrameView, Error>(Error::UnknownFrame),
        bytes.len() < 21 && bytes.len() > 0 && bytes[0] == 2 ==> FrameView::parse(bytes).result
            == Err::<FrameView, Error>(Error::UnexpectedEof),
{
}

/// A packet is for the machines that it names, or for all if it names none; control frames are
/// for all.
pub proof fn law_named_recepients(
    control: ProtocolControlFrame,
    peer_id: PeerId,
    channel_id: ChannelId,
    packet: PacketDataView,
    engine_id: EngineId,
)
    ensures
        RoutedFrameView::Control(control).is_for(engine_id),
        RoutedFrameView::Packet(peer_id, channel_id, packet).is_for(engine_id) <==> (
        packet.recepients.len() == 0 || packet.recepients.contains(engine_id)),
        packet.is_for(engine_id) <==> (packet.recepients.len() == 0 || packet.recepients.contains(
            engine_id,
        )),
{
}

/// Over the wire a frame keeps what it is about and its data; whom a packet is for and from is
/// not sent.
pub proof fn law_kept_over_the_wire(
    control: ProtocolControlFrame,
    peer_id: PeerId,
    channel_id: ChannelId,
    packet: PacketDataView,
)
    ensures
        RoutedFrameView::from_wire(RoutedFrameView::Control(control).on_wire())
            == RoutedFrameView::Control(control),
        ({
            let after = RoutedFrameView::from_wire(
                RoutedFrameView::Packet(peer_id, channel_id, packet).on_wire(),
            );
            &&& after is Packet
            &&& after->Packet_0 == peer_id
            &&& after->Packet_1 == channel_id
            &&& after->Packet_2.data == packet.data
            &&& after->Packet_2.recepients.len() == 0
            &&& after->Packet_2.sender is None
        }),
{
}

} // verus!
