//! Ways for messages in and out of a peer.

use std::collections::VecDeque;
use std::hash::Hash;
use vstd::prelude::*;

use crate::buffer::Buffer;
use crate::codec::{Codec, LosslessCodec};
use crate::engine::{packet_views, EngineId};
use crate::error::Error;
use crate::label::{label, numeral};
use crate::protocol::{PacketDataView, ProtocolPacketData};
use crate::replication::{hash, hashes_to};

verus! {

broadcast use vstd::std_specs::vecdeque::group_vec_dequeue_axioms;

/// Tells the channels of a peer apart.
#[derive(Debug, Clone, Copy, PartialEq, Eq, PartialOrd, Ord, Hash, Structural)]
pub struct ChannelId(pub u64);

impl ChannelId {
    pub fn new(id: u64) -> (result: Self)
        ensures
            result.0 == id,
    {
        ChannelId(id)
    }

    pub fn id(&self) -> (result: u64)
        ensures
            result == self.0,
    {
        self.0
    }

    /// The id that is the hash of `item`. Which that is, is up to how `T` hashes.
    pub fn hashed<T: Hash>(item: &T) -> (result: Self)
        ensures
            hashes_to(*item, result.0),
    {
        ChannelId(hash(item))
    }

    /// The id as text.
    pub fn to_text(&self) -> (result: String)
        ensures
            result@ == "#channel:"@ + numeral(self.0 as nat),
    {
        label("#channel:", self.0 as u128)
    }
}

impl Default for ChannelId {
    fn default() -> (result: Self)
        ensures
            result.0 == 0,
    {
        ChannelId(0)
    }
}

/// Mode of the channel, defining its reliability and ordering guarantees.
/// IMPORTANT: It is only a hint for the underlying transport, actual guarantees
/// depend on the transport used!
#[derive(Debug, Clone, Copy, PartialEq, Eq, PartialOrd, Ord, Hash, Structural)]
pub enum ChannelMode {
    ReliableOrdered,
    ReliableUnordered,
    Unreliable,
}

/// Which way a channel goes.
#[derive(Debug, Clone, Copy, PartialEq, Eq, PartialOrd, Ord, Hash, Structural)]
pub enum ChannelKind {
    /// Packets become messages.
    Read,
    /// Messages become packets.
    Write,
    /// Messages are passed on.
    Pipe,
}

/// A message, which machines it is for and which it comes from.
pub struct Dispatch<M> {
    pub message: M,
    /// The machines that are to get the message: all, if none is named.
    pub recepients: Vec<EngineId>,
    /// The machine that the message comes from, if that is known.
    pub sender: Option<EngineId>,
}

/// What a [`Dispatch`] says.
#[verifier::ext_equal]
pub struct LetterView<M> {
    pub message: M,
    pub recepients: Seq<EngineId>,
    pub sender: Option<EngineId>,
}

impl<M> LetterView<M> {
    /// Whether the packet is for the same machines and from the same one.
    pub open spec fn travels_as(self, packet: PacketDataView) -> bool {
        self.recepients == packet.recepients && self.sender == packet.sender
    }
}

impl<M> Dispatch<M> {
    /// What this says.
    pub open spec fn letter(self) -> LetterView<M> {
        LetterView { message: self.message, recepients: self.recepients@, sender: self.sender }
    }

    /// A message for all machines.
    pub fn new(message: M) -> (result: Self)
        ensures
            result.message == message,
            result.recepients@ == Seq::<EngineId>::empty(),
            result.sender is None,
    {
        Dispatch { message, recepients: Vec::new(), sender: None }
    }

    /// The message, also for one more machine.
    pub fn recepient(self, engine_id: EngineId) -> (result: Self)
        ensures
            result.letter() == (LetterView {
                recepients: self.recepients@.push(engine_id),
                ..self.letter()
            }),
    {
        let mut this = self;
        this.recepients.push(engine_id);
        this
    }

    /// The message, also for one more machine if there is one.
    pub fn maybe_recepient(self, engine_id: Option<EngineId>) -> (result: Self)
        ensures
            result.letter() == (match engine_id {
                Some(id) => LetterView {
                    recepients: self.recepients@.push(id),
                    ..self.letter()
                },
                None => self.letter(),
            }),
    {
        match engine_id {
            Some(id) => self.recepient(id),
            None => self,
        }
    }
}

/// What messages say, one by one.
pub open spec fn letters<M>(messages: Seq<Dispatch<M>>) -> Seq<LetterView<M>> {
    messages.map_values(|message: Dispatch<M>| message.letter())
}

/// Packets as the contracts speak of them.
pub type PacketViews = Seq<PacketDataView>;

/// Something that moves what waits on one side over to the other.
pub trait Pump: Sized {
    /// Whether moving one item can give these.
    spec fn pumped(self, after: Self, result: Result<bool, Error>) -> bool;

    /// Whether moving all items can give these.
    spec fn pumped_all(self, after: Self, result: Result<usize, Error>) -> bool;

    /// Whether putting packets in can give `after`.
    spec fn filled(self, packets: PacketViews, after: Self) -> bool;

    /// Whether taking all packets out can give these.
    spec fn drained(self, after: Self, packets: PacketViews) -> bool;

    /// Moves one item, and says whether there was one.
    fn pump(&mut self) -> (result: Result<bool, Error>)
        ensures
            old(self).pumped(*final(self), result),
    ;

    /// Moves all items, and says how many there were.
    fn pump_all(&mut self) -> (result: Result<usize, Error>)
        ensures
            old(self).pumped_all(*final(self), result),
    ;

    /// Puts packets in, behind those that are there.
    fn fill(&mut self, packets: VecDeque<ProtocolPacketData>)
        ensures
            old(self).filled(packet_views(packets@), *final(self)),
    ;

    /// Takes all packets out.
    fn drain(&mut self) -> (result: VecDeque<ProtocolPacketData>)
        ensures
            old(self).drained(*final(self), packet_views(result@)),
    ;
}

/// Converts between messages and packets, from what waits on one side to the other.
#[verifier::reject_recursive_types(C)]
pub struct Channel<C: Codec> {
    kind: ChannelKind,
    packets: VecDeque<ProtocolPacketData>,
    messages: VecDeque<Dispatch<C::Value>>,
    passed: VecDeque<Dispatch<C::Value>>,
    closed: bool,
}

/// What a [`Channel`] holds.
#[verifier::ext_equal]
#[verifier::reject_recursive_types(C)]
pub struct ChannelView<C: Codec> {
    pub kind: ChannelKind,
    /// Packets that wait to be read, or that were written.
    pub packets: Seq<PacketDataView>,
    /// Messages that wait to be written or passed on, or that were read.
    pub messages: Seq<LetterView<C::Value>>,
    /// Messages that were passed on.
    pub passed: Seq<LetterView<C::Value>>,
    /// Whether nobody takes what the channel moves any more.
    pub closed: bool,
}

impl<C: Codec> View for Channel<C> {
    type V = ChannelView<C>;

    closed spec fn view(&self) -> ChannelView<C> {
        ChannelView {
            kind: self.kind,
            packets: packet_views(self.packets@),
            messages: letters(self.messages@),
            passed: letters(self.passed@),
            closed: self.closed,
        }
    }
}

/// The packet that a message becomes.
pub open spec fn packet_of<C: Codec>(letter: LetterView<C::Value>) -> PacketDataView {
    PacketDataView {
        data: C::emit(letter.message).bytes,
        recepients: letter.recepients,
        sender: letter.sender,
    }
}

impl<C: Codec> ChannelView<C> {
    /// A channel on which nothing waits.
    pub open spec fn fresh(kind: ChannelKind) -> Self {
        ChannelView {
            kind,
            packets: Seq::empty(),
            messages: Seq::empty(),
            passed: Seq::empty(),
            closed: false,
        }
    }

    /// How many items wait to be moved.
    pub open spec fn waiting(self) -> nat {
        match self.kind {
            ChannelKind::Read => self.packets.len(),
            ChannelKind::Write => self.messages.len(),
            ChannelKind::Pipe => self.messages.len(),
        }
    }

    /// Whether moving the first item that waits can give `after`, or fail with `error`. An
    /// item that fails is gone, and so is one that nobody takes. Messages and packets keep the
    /// machines that they are for and from.
    pub open spec fn moved(self, after: Self, error: Option<Error>) -> bool {
        &&& after.kind == self.kind
        &&& after.closed == self.closed
        &&& match self.kind {
            ChannelKind::Read => {
                let parsed = C::parse(self.packets[0].data);
                &&& after.packets == self.packets.skip(1)
                &&& after.passed == self.passed
                &&& match parsed.result {
                    Ok(model) => if self.closed {
                        error == Some(Error::ChannelClosed) && after.messages == self.messages
                    } else {
                        &&& error is None
                        &&& after.messages.len() == self.messages.len() + 1
                        &&& after.messages.drop_last() == self.messages
                        &&& C::model(after.messages.last().message) == model
                        &&& after.messages.last().travels_as(self.packets[0])
                    },
                    Err(reason) => error == Some(reason) && after.messages == self.messages,
                }
            },
            ChannelKind::Write => {
                &&& after.messages == self.messages.skip(1)
                &&& after.passed == self.passed
                &&& match C::emit(self.messages[0].message).error {
                    None => if self.closed {
                        error == Some(Error::ChannelClosed) && after.packets == self.packets
                    } else {
                        error is None && after.packets == self.packets.push(
                            packet_of::<C>(self.messages[0]),
                        )
                    },
                    Some(reason) => error == Some(reason) && after.packets == self.packets,
                }
            },
            ChannelKind::Pipe => {
                &&& after.messages == self.messages.skip(1)
                &&& after.packets == self.packets
                &&& if self.closed {
                    error == Some(Error::ChannelClosed) && after.passed == self.passed
                } else {
                    error is None && after.passed == self.passed.push(self.messages[0])
                }
            },
        }
    }

    /// Whether moving `count` items, one after the other, can give `after`.
    pub open spec fn moved_many(self, count: nat, after: Self) -> bool
        decreases count,
    {
        if count == 0 {
            after == self
        } else {
            exists|between: Self|
                {
                    &&& self.moved_many((count - 1) as nat, between)
                    &&& #[trigger] between.moved(after, None)
                }
        }
    }

    /// Whether moving one more item behind `count` others can fail with `error`.
    pub open spec fn moved_after(self, count: nat, after: Self, error: Error) -> bool {
        self.moved(after, Some(error))
    }

    /// Whether moving all items that wait, up to the first that fails, can give these.
    pub open spec fn moved_all(self, after: Self, result: Result<usize, Error>) -> bool {
        match result {
            Ok(count) => count == self.waiting() && self.moved_many(count as nat, after),
            Err(error) => exists|count: nat, between: Self|
                {
                    &&& count < self.waiting()
                    &&& self.moved_many(count, between)
                    &&& #[trigger] between.moved_after(count, after, error)
                },
        }
    }

    /// Moving items leaves so many fewer to wait.
    pub proof fn lemma_moved_many(self, count: nat, after: Self)
        requires
            self.moved_many(count, after),
            count <= self.waiting(),
        ensures
            after.kind == self.kind,
            after.closed == self.closed,
            after.waiting() == self.waiting() - count,
        decreases count,
    {
        if count > 0 {
            let between = choose|between: Self|
                {
                    &&& self.moved_many((count - 1) as nat, between)
                    &&& #[trigger] between.moved(after, None)
                };
            self.lemma_moved_many((count - 1) as nat, between);
        }
    }
}

/// The message that a packet holds.
pub fn decode_packet<C: Codec>(packet: Vec<u8>) -> (result: Result<C::Value, Error>)
    ensures
        match result {
            Ok(message) => C::parse(packet@).result == Ok::<C::Model, Error>(C::model(message)),
            Err(error) => C::parse(packet@).result == Err::<C::Model, Error>(error),
        },
{
    let mut buffer = Buffer::new(packet);
    C::decode(&mut buffer)
}

/// The packet of a message.
pub fn encode_packet<C: Codec>(message: &C::Value) -> (result: Result<Vec<u8>, Error>)
    ensures
        match result {
            Ok(packet) => C::emit(*message).error is None && packet@ == C::emit(*message).bytes,
            Err(error) => C::emit(*message).error == Some(error),
        },
{
    let mut buffer = Buffer::new(Vec::new());
    match C::encode(message, &mut buffer) {
        Ok(_) => {
            assert(buffer@.bytes() =~= C::emit(*message).bytes);
            Ok(buffer.into_inner())
        },
        Err(error) => Err(error),
    }
}

impl<C: Codec> Channel<C> {
    /// A channel on which nothing waits.
    pub fn new(kind: ChannelKind) -> (result: Self)
        ensures
            result@ == ChannelView::<C>::fresh(kind),
    {
        let result = Channel {
            kind,
            packets: VecDeque::new(),
            messages: VecDeque::new(),
            passed: VecDeque::new(),
            closed: false,
        };
        assert(result@ =~= ChannelView::<C>::fresh(kind));
        result
    }

    /// A channel that turns packets into messages.
    pub fn read() -> (result: Self)
        ensures
            result@ == ChannelView::<C>::fresh(ChannelKind::Read),
    {
        Channel::new(ChannelKind::Read)
    }

    /// A channel that turns messages into packets.
    pub fn write() -> (result: Self)
        ensures
            result@ == ChannelView::<C>::fresh(ChannelKind::Write),
    {
        Channel::new(ChannelKind::Write)
    }

    /// A channel that passes messages on.
    pub fn pipe() -> (result: Self)
        ensures
            result@ == ChannelView::<C>::fresh(ChannelKind::Pipe),
    {
        Channel::new(ChannelKind::Pipe)
    }

    pub fn kind(&self) -> (result: ChannelKind)
        ensures
            result == self@.kind,
    {
        self.kind
    }

    /// Takes note that nobody takes what the channel moves any more.
    pub fn close(&mut self)
        ensures
            final(self)@ == (ChannelView { closed: true, ..old(self)@ }),
    {
        self.closed = true;
    }

    /// Adds a packet.
    pub fn push_packet(&mut self, packet: ProtocolPacketData)
        ensures
            final(self)@ == (ChannelView {
                packets: old(self)@.packets.push(packet@),
                ..old(self)@
            }),
    {
        let ghost before = self@;
        self.packets.push_back(packet);
        assert(self@.packets =~= before.packets.push(packet@));
    }

    /// Takes the first packet.
    pub fn take_packet(&mut self) -> (result: Option<ProtocolPacketData>)
        ensures
            old(self)@.packets.len() == 0 ==> result is None && final(self)@ == old(self)@,
            old(self)@.packets.len() > 0 ==> {
                &&& result matches Some(packet)
                &&& packet@ == old(self)@.packets[0]
                &&& final(self)@ == (ChannelView {
                    packets: old(self)@.packets.skip(1),
                    ..old(self)@
                })
            },
    {
        let ghost before = self@;
        let result = self.packets.pop_front();
        assert(before.packets.len() > 0 ==> self@.packets =~= before.packets.skip(1));
        result
    }

    /// Adds a message.
    pub fn push_message(&mut self, message: Dispatch<C::Value>)
        ensures
            final(self)@ == (ChannelView {
                messages: old(self)@.messages.push(message.letter()),
                ..old(self)@
            }),
    {
        let ghost before = self@;
        self.messages.push_back(message);
        assert(self@.messages =~= before.messages.push(message.letter()));
    }

    /// Takes the first message.
    pub fn take_message(&mut self) -> (result: Option<Dispatch<C::Value>>)
        ensures
            old(self)@.messages.len() == 0 ==> result is None && final(self)@ == old(self)@,
            old(self)@.messages.len() > 0 ==> {
                &&& result matches Some(message)
                &&& message.letter() == old(self)@.messages[0]
                &&& final(self)@ == (ChannelView {
                    messages: old(self)@.messages.skip(1),
                    ..old(self)@
                })
            },
    {
        let ghost before = self@;
        let result = self.messages.pop_front();
        assert(before.messages.len() > 0 ==> self@.messages =~= before.messages.skip(1));
        result
    }

    /// Takes the first message that was passed on.
    pub fn take_passed(&mut self) -> (result: Option<Dispatch<C::Value>>)
        ensures
            old(self)@.passed.len() == 0 ==> result is None && final(self)@ == old(self)@,
            old(self)@.passed.len() > 0 ==> {
                &&& result matches Some(message)
                &&& message.letter() == old(self)@.passed[0]
                &&& final(self)@ == (ChannelView {
                    passed: old(self)@.passed.skip(1),
                    ..old(self)@
                })
            },
    {
        let ghost before = self@;
        let result = self.passed.pop_front();
        assert(before.passed.len() > 0 ==> self@.passed =~= before.passed.skip(1));
        result
    }

    /// Moves the first item that waits, and says whether there was one.
    pub fn pump(&mut self) -> (result: Result<bool, Error>)
        ensures
            old(self)@.waiting() == 0 ==> result == Ok::<bool, Error>(false) && final(self)@
                == old(self)@,
            old(self)@.waiting() > 0 ==> match result {
                Ok(moved) => moved && old(self)@.moved(final(self)@, None),
                Err(error) => old(self)@.moved(final(self)@, Some(error)),
            },
    {
        let ghost before = self@;
        match self.kind {
            ChannelKind::Read => match self.take_packet() {
                Some(packet) => {
                    let ProtocolPacketData { data, recepients, sender } = packet;
                    match decode_packet::<C>(data) {
                        Ok(message) => {
                            if self.closed {
                                return Err(Error::ChannelClosed);
                            }
                            let dispatch = Dispatch { message, recepients, sender };
                            self.push_message(dispatch);
                            assert(self@.messages.drop_last() =~= before.messages);
                            Ok(true)
                        },
                        Err(error) => Err(error),
                    }
                },
                None => Ok(false),
            },
            ChannelKind::Write => match self.take_message() {
                Some(dispatch) => {
                    let Dispatch { message, recepients, sender } = dispatch;
                    match encode_packet::<C>(&message) {
                        Ok(data) => {
                            if self.closed {
                                return Err(Error::ChannelClosed);
                            }
                            let packet = ProtocolPacketData { data, recepients, sender };
                            self.push_packet(packet);
                            assert(packet@ =~= packet_of::<C>(before.messages[0]));
                            Ok(true)
                        },
                        Err(error) => Err(error),
                    }
                },
                None => Ok(false),
            },
            ChannelKind::Pipe => match self.take_message() {
                Some(dispatch) => {
                    if self.closed {
                        return Err(Error::ChannelClosed);
                    }
                    let ghost letter = dispatch.letter();
                    self.passed.push_back(dispatch);
                    assert(self@.passed =~= before.passed.push(letter));
                    Ok(true)
                },
                None => Ok(false),
            },
        }
    }

    /// Moves all items that wait, up to the first that fails, and says how many there were.
    pub fn pump_all(&mut self) -> (result: Result<usize, Error>)
        ensures
            old(self)@.moved_all(final(self)@, result),
    {
        let ghost before = self@;
        let total: usize = match self.kind {
            ChannelKind::Read => self.packets.len(),
            ChannelKind::Write => self.messages.len(),
            ChannelKind::Pipe => self.messages.len(),
        };
        let mut count: usize = 0;
        while count < total
            invariant
                before == old(self)@,
                count <= total,
                total == before.waiting(),
                before.moved_many(count as nat, self@),
            decreases total - count,
        {
            let ghost between = self@;
            proof {
                before.lemma_moved_many(count as nat, between);
            }
            match self.pump() {
                Ok(_) => {
                    assert(between.moved(self@, None));
                    assert(before.moved_many((count + 1) as nat, self@));
                },
                Err(error) => {
                    assert(between.moved_after(count as nat, self@, error));
                    return Err(error);
                },
            }
            count = count + 1;
        }
        Ok(count)
    }

    /// Puts packets in, behind those that are there.
    pub fn fill(&mut self, packets: VecDeque<ProtocolPacketData>)
        ensures
            final(self)@ == (ChannelView {
                packets: old(self)@.packets + packet_views(packets@),
                ..old(self)@
            }),
    {
        let ghost before = self@;
        let mut packets = packets;
        let ghost all = packet_views(packets@);
        let ghost mut i: int = 0;
        assert(before.packets + all.take(0) =~= before.packets);
        assert(packet_views(packets@) =~= all.skip(0));
        loop
            invariant
                before == old(self)@,
                0 <= i <= all.len(),
                packet_views(packets@) == all.skip(i),
                self@ == (ChannelView { packets: before.packets + all.take(i), ..before }),
            ensures
                self@ == (ChannelView { packets: before.packets + all, ..before }),
            decreases all.len() - i,
        {
            let ghost waiting = packets@;
            match packets.pop_front() {
                None => {
                    assert(packet_views(waiting).len() == 0);
                    assert(all.take(i) =~= all);
                    break;
                },
                Some(packet) => {
                    assert(packet_views(waiting).len() > 0);
                    assert(all.skip(i)[0] == all[i]);
                    assert(packet@ == packet_views(waiting)[0]);
                    assert(packet@ == all[i]);
                    self.push_packet(packet);
                    assert(packet_views(packets@) =~= packet_views(waiting).skip(1));
                    assert(all.skip(i).skip(1) =~= all.skip(i + 1));
                    assert((before.packets + all.take(i)).push(all[i]) =~= before.packets
                        + all.take(i + 1));
                    proof {
                        i = i + 1;
                    }
                },
            }
        }
    }

    /// Takes all packets out.
    pub fn drain(&mut self) -> (result: VecDeque<ProtocolPacketData>)
        ensures
            packet_views(result@) == old(self)@.packets,
            final(self)@ == (ChannelView { packets: Seq::empty(), ..old(self)@ }),
    {
        let mut packets: VecDeque<ProtocolPacketData> = VecDeque::new();
        std::mem::swap(&mut packets, &mut self.packets);
        assert(self@.packets =~= Seq::<PacketDataView>::empty());
        packets
    }
}

impl<C: Codec> Pump for Channel<C> {
    open spec fn pumped(self, after: Self, result: Result<bool, Error>) -> bool {
        if self@.waiting() == 0 {
            result == Ok::<bool, Error>(false) && after@ == self@
        } else {
            match result {
                Ok(moved) => moved && self@.moved(after@, None),
                Err(error) => self@.moved(after@, Some(error)),
            }
        }
    }

    open spec fn pumped_all(self, after: Self, result: Result<usize, Error>) -> bool {
        self@.moved_all(after@, result)
    }

    open spec fn filled(self, packets: Seq<PacketDataView>, after: Self) -> bool {
        after@ == (ChannelView { packets: self@.packets + packets, ..self@ })
    }

    open spec fn drained(self, after: Self, packets: Seq<PacketDataView>) -> bool {
        packets == self@.packets && after@ == (ChannelView { packets: Seq::empty(), ..self@ })
    }

    fn pump(&mut self) -> (result: Result<bool, Error>) {
        Channel::pump(self)
    }

    fn pump_all(&mut self) -> (result: Result<usize, Error>) {
        Channel::pump_all(self)
    }

    fn fill(&mut self, packets: VecDeque<ProtocolPacketData>) {
        Channel::fill(self, packets)
    }

    fn drain(&mut self) -> (result: VecDeque<ProtocolPacketData>) {
        Channel::drain(self)
    }
}

/// What moving messages into packets leaves.
pub(crate) proof fn lemma_written<C: Codec>(writer: ChannelView<C>, count: nat, after: ChannelView<C>)
    requires
        writer.kind is Write,
        writer.moved_many(count, after),
        count <= writer.messages.len(),
    ensures
        after.kind is Write,
        after.messages == writer.messages.skip(count as int),
        after.packets == writer.packets + Seq::new(
            count,
            |i: int| packet_of::<C>(writer.messages[i]),
        ),
    decreases count,
{
    let packets = Seq::new(count, |i: int| packet_of::<C>(writer.messages[i]));
    if count == 0 {
        assert(writer.messages.skip(0) =~= writer.messages);
        assert(writer.packets + packets =~= writer.packets);
    } else {
        let less = (count - 1) as nat;
        let between = choose|between: ChannelView<C>|
            {
                &&& writer.moved_many(less, between)
                &&& #[trigger] between.moved(after, None)
            };
        lemma_written(writer, less, between);
        assert(between.messages[0] == writer.messages[less as int]);
        assert(between.messages.skip(1) =~= writer.messages.skip(count as int));
        assert(after.packets =~= writer.packets + packets);
    }
}

/// What moving packets into messages leaves.
proof fn lemma_read<C: Codec>(reader: ChannelView<C>, count: nat, after: ChannelView<C>)
    requires
        reader.kind is Read,
        reader.moved_many(count, after),
        count <= reader.packets.len(),
    ensures
        after.kind is Read,
        after.closed == reader.closed,
        after.packets == reader.packets.skip(count as int),
        after.messages.len() == reader.messages.len() + count,
        after.messages.take(reader.messages.len() as int) == reader.messages,
        forall|i: int|
            0 <= i < count ==> {
                let message = #[trigger] after.messages[reader.messages.len() + i];
                &&& C::parse(reader.packets[i].data).result == Ok::<C::Model, Error>(
                    C::model(message.message),
                )
                &&& message.travels_as(reader.packets[i])
            },
    decreases count,
{
    let known = reader.messages.len();
    if count == 0 {
        assert(reader.packets.skip(0) =~= reader.packets);
        assert(after.messages.take(known as int) =~= reader.messages);
    } else {
        let less = (count - 1) as nat;
        let between = choose|between: ChannelView<C>|
            {
                &&& reader.moved_many(less, between)
                &&& #[trigger] between.moved(after, None)
            };
        lemma_read(reader, less, between);
        assert(between.packets[0] == reader.packets[less as int]);
        assert(between.packets.skip(1) =~= reader.packets.skip(count as int));
        assert(after.messages.take(known as int) =~= after.messages.drop_last().take(
            known as int,
        ));
        assert forall|i: int| 0 <= i < count implies {
            let message = #[trigger] after.messages[known + i];
            &&& C::parse(reader.packets[i].data).result == Ok::<C::Model, Error>(
                C::model(message.message),
            )
            &&& message.travels_as(reader.packets[i])
        } by {
            if i < less {
                assert(after.messages.drop_last()[known + i] == between.messages[known + i]);
            }
        }
    }
}

/// What is written to one end of a channel comes out of the other, in the same order, once its
/// packets are brought there: moving them goes through, and the messages are those that were
/// written. They are for and from the machines that the packets name when they arrive.
pub proof fn law_messages_are_delivered<C: LosslessCodec>(
    writer: ChannelView<C>,
    wrote: ChannelView<C>,
    reader: ChannelView<C>,
    filled: ChannelView<C>,
    read: ChannelView<C>,
    count: nat,
    result: Result<usize, Error>,
)
    requires
        writer.kind is Write,
        count <= writer.messages.len(),
        forall|i: int|
            0 <= i < count ==> C::fits((#[trigger] writer.messages[i]).message) && C::emit(
                writer.messages[i].message,
            ).error is None,
        writer.moved_many(count, wrote),
        reader.kind is Read,
        !reader.closed,
        reader.packets.len() == 0,
        filled == (ChannelView { packets: filled.packets, ..reader }),
        filled.packets.len() == count,
        forall|i: int|
            0 <= i < count ==> (#[trigger] filled.packets[i]).data
                == wrote.packets[writer.packets.len() + i].data,
        filled.moved_all(read, result),
    ensures
        result matches Ok(moved) && moved == count,
        read.packets.len() == 0,
        read.messages.len() == reader.messages.len() + count,
        read.messages.take(reader.messages.len() as int) == reader.messages,
        forall|i: int|
            0 <= i < count ==> {
                let message = #[trigger] read.messages[reader.messages.len() + i];
                &&& C::model(message.message) == C::model(writer.messages[i].message)
                &&& message.travels_as(filled.packets[i])
            },
{
    lemma_written(writer, count, wrote);
    assert forall|i: int| 0 <= i < count implies C::parse(
        (#[trigger] filled.packets[i]).data,
    ).result == Ok::<C::Model, Error>(C::model(writer.messages[i].message)) by {
        let message = writer.messages[i].message;
        assert(wrote.packets[writer.packets.len() + i] == packet_of::<C>(writer.messages[i]));
        C::law_round_trip(message, Seq::empty());
        assert(C::emit(message).bytes + Seq::<u8>::empty() =~= C::emit(message).bytes);
    }
    match result {
        Ok(_) => {
            lemma_read(filled, count, read);
        },
        Err(error) => {
            let (moved, between) = choose|moved: nat, between: ChannelView<C>|
                {
                    &&& moved < filled.waiting()
                    &&& filled.moved_many(moved, between)
                    &&& #[trigger] between.moved_after(moved, read, error)
                };
            lemma_read(filled, moved, between);
            assert(between.packets[0] == filled.packets[moved as int]);
        },
    }
}

/// A message that is written becomes a packet of its bytes, for those and from whom the message
/// is. If it cannot be written, or nobody takes packets, there is no packet, and the message is
/// gone.
pub proof fn law_written_message_becomes_a_packet<C: Codec>(
    channel: ChannelView<C>,
    after: ChannelView<C>,
    error: Option<Error>,
)
    requires
        channel.kind is Write,
        channel.messages.len() > 0,
        channel.moved(after, error),
    ensures
        ({
            let message = channel.messages[0];
            let emitted = C::emit(message.message);
            &&& channel.waiting() == channel.messages.len()
            &&& after.waiting() == channel.waiting() - 1
            &&& after.messages == channel.messages.skip(1)
            &&& after.passed == channel.passed
            &&& error is None <==> emitted.error is None && !channel.closed
            &&& emitted.error is Some ==> error == emitted.error
            &&& emitted.error is None && channel.closed ==> error == Some(Error::ChannelClosed)
            &&& error is Some ==> after.packets == channel.packets
            &&& error is None ==> {
                &&& after.packets.len() == channel.packets.len() + 1
                &&& after.packets.drop_last() == channel.packets
                &&& after.packets.last().data == emitted.bytes
                &&& after.packets.last().recepients == message.recepients
                &&& after.packets.last().sender == message.sender
            }
        }),
{
    if error is None {
        assert(after.packets.drop_last() =~= channel.packets);
    }
}

/// A packet that is read becomes the message that its bytes hold, for those and from whom the
/// packet is. If they hold none, or nobody takes messages, there is no message, and the packet is
/// gone.
pub proof fn law_read_packet_becomes_a_message<C: Codec>(
    channel: ChannelView<C>,
    after: ChannelView<C>,
    error: Option<Error>,
)
    requires
        channel.kind is Read,
        channel.packets.len() > 0,
        channel.moved(after, error),
    ensures
        ({
            let packet = channel.packets[0];
            let parsed = C::parse(packet.data).result;
            &&& channel.waiting() == channel.packets.len()
            &&& after.waiting() == channel.waiting() - 1
            &&& after.packets == channel.packets.skip(1)
            &&& after.passed == channel.passed
            &&& error is None <==> parsed is Ok && !channel.closed
            &&& parsed matches Err(reason) ==> error == Some(reason)
            &&& parsed is Ok && channel.closed ==> error == Some(Error::ChannelClosed)
            &&& error is Some ==> after.messages == channel.messages
            &&& error is None ==> {
                &&& after.messages.len() == channel.messages.len() + 1
                &&& after.messages.drop_last() == channel.messages
                &&& C::model(after.messages.last().message) == parsed->Ok_0
                &&& after.messages.last().recepients == packet.recepients
                &&& after.messages.last().sender == packet.sender
            }
        }),
{
}

/// A pipe passes messages on as they are, one by one and in order, until nobody takes them.
pub proof fn law_pipe_passes_messages_on<C: Codec>(
    channel: ChannelView<C>,
    after: ChannelView<C>,
    error: Option<Error>,
)
    requires
        channel.kind is Pipe,
        channel.messages.len() > 0,
        channel.moved(after, error),
    ensures
        channel.waiting() == channel.messages.len(),
        after.waiting() == channel.waiting() - 1,
        after.messages == channel.messages.skip(1),
        after.packets == channel.packets,
        error is None <==> !channel.closed,
        error is Some ==> error == Some(Error::ChannelClosed) && after.passed == channel.passed,
        error is None ==> after.passed == channel.passed.push(channel.messages[0]),
{
}

/// Moving all that waits without an error leaves nothing to wait and says how much there was;
/// where something fails, what is behind it waits on.
pub proof fn law_all_that_waits_is_moved<C: Codec>(
    channel: ChannelView<C>,
    after: ChannelView<C>,
    result: Result<usize, Error>,
)
    requires
        channel.moved_all(after, result),
    ensures
        result matches Ok(count) ==> count == channel.waiting() && after.waiting() == 0,
        result is Err ==> after.waiting() < channel.waiting(),
        after.kind == channel.kind,
        after.closed == channel.closed,
{
    match result {
        Ok(count) => {
            lemma_moved_many_waits(channel, count as nat, after);
        },
        Err(error) => {
            let (count, between) = choose|count: nat, between: ChannelView<C>|
                {
                    &&& count < channel.waiting()
                    &&& channel.moved_many(count, between)
                    &&& #[trigger] between.moved_after(count, after, error)
                };
            lemma_moved_many_waits(channel, count, between);
        },
    }
}

proof fn lemma_moved_many_waits<C: Codec>(
    channel: ChannelView<C>,
    count: nat,
    after: ChannelView<C>,
)
    requires
        count <= channel.waiting(),
        channel.moved_many(count, after),
    ensures
        after.waiting() == channel.waiting() - count,
        after.kind == channel.kind,
        after.closed == channel.closed,
    decreases count,
{
    if count > 0 {
        let between = choose|between: ChannelView<C>|
            {
                &&& channel.moved_many((count - 1) as nat, between)
                &&& #[trigger] between.moved(after, None)
            };
        lemma_moved_many_waits(channel, (count - 1) as nat, between);
    }
}

/// A new channel holds nothing and is open.
pub proof fn law_new_channels_are_empty<C: Codec>(kind: ChannelKind)
    ensures
        ({
            let channel = ChannelView::<C>::fresh(kind);
            &&& channel.kind == kind
            &&& channel.waiting() == 0
            &&& channel.packets.len() == 0
            &&& channel.messages.len() == 0
            &&& channel.passed.len() == 0
            &&& !channel.closed
        }),
{
}

} // verus!
