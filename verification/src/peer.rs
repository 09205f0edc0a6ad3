//! Participants of a meeting.

use std::collections::VecDeque;
use std::hash::Hash;
use vstd::prelude::*;

use crate::buffer::Buffer;
use crate::channel::{ChannelId, ChannelMode};
use crate::engine::{
    DescriptorView, EnginePacketReceiver, EnginePacketSender, EnginePeerDescriptor, QueueView,
};
use crate::error::Error;
use crate::event::{receiving, sending, EventReceiver, EventSender, Received};
use crate::label::{label, numeral};
use crate::ordered_map::{
    has_key, keys_ascend, law_with_value, place_of, value_of, viewed, with_value, without_key,
    OrderedMap,
};
use crate::replication::{hash, hashes_to, DefaultReplicable, LosslessReplicable, Replicable};
use crate::user_data::PeerUserData;
use crate::wire::{Applied, Emitted};

verus! {

/// Tells the peers of a meeting apart.
#[derive(Debug, Clone, Copy, PartialEq, Eq, PartialOrd, Ord, Hash, Structural)]
pub struct PeerId(pub u64);

impl PeerId {
    pub fn new(id: u64) -> (result: Self)
        ensures
            result.0 == id,
    {
        PeerId(id)
    }

    pub fn id(&self) -> (result: u64)
        ensures
            result == self.0,
    {
        self.0
    }

    /// The id as text.
    pub fn to_text(&self) -> (result: String)
        ensures
            result@ == "#peer:"@ + numeral(self.0 as nat),
    {
        label("#peer:", self.0 as u128)
    }
}

impl Default for PeerId {
    fn default() -> (result: Self)
        ensures
            result.0 == 0,
    {
        PeerId(0)
    }
}

impl Replicable for PeerId {
    type Model = PeerId;

    open spec fn model(self) -> PeerId {
        self
    }

    open spec fn emit(self) -> Emitted {
        <u64 as Replicable>::emit(self.0)
    }

    open spec fn parse(prior: PeerId, bytes: Seq<u8>) -> Applied<PeerId> {
        let number = <u64 as Replicable>::parse(prior.0, bytes);
        Applied {
            model: PeerId(number.model),
            error: number.error,
            consumed: number.consumed,
        }
    }

    proof fn parse_is_within(prior: PeerId, bytes: Seq<u8>) {
        <u64 as Replicable>::parse_is_within(prior.0, bytes);
    }

    fn collect_changes(&self, buffer: &mut Buffer) -> (result: Result<(), Error>) {
        self.0.collect_changes(buffer)
    }

    fn apply_changes(&mut self, buffer: &mut Buffer) -> (result: Result<(), Error>) {
        self.0.apply_changes(buffer)
    }
}

impl DefaultReplicable for PeerId {
    open spec fn blank() -> PeerId {
        PeerId(0)
    }

    proof fn default_is_blank(value: PeerId) {
    }
}

impl LosslessReplicable for PeerId {
    open spec fn fits(self) -> bool {
        true
    }

    proof fn law_round_trip(self, prior: PeerId, tail: Seq<u8>) {
        <u64 as LosslessReplicable>::law_round_trip(self.0, prior.0, tail);
    }
}

/// Tells what a peer is in a meeting.
#[derive(Debug, Clone, Copy, PartialEq, Eq, PartialOrd, Ord, Hash, Structural)]
pub struct PeerRoleId(pub u64);

impl PeerRoleId {
    pub fn new(id: u64) -> (result: Self)
        ensures
            result.0 == id,
    {
        PeerRoleId(id)
    }

    pub fn id(&self) -> (result: u64)
        ensures
            result == self.0,
    {
        self.0
    }

    /// The id that is the hash of `item`. Which that is, is up to how `T` hashes.
    pub fn hashed<T: Hash>(item: &T) -> (result: Self)
        ensures
            hashes_to(*item, result.0),
    {
        PeerRoleId(hash(item))
    }

    /// The id as text.
    pub fn to_text(&self) -> (result: String)
        ensures
            result@ == "#role:"@ + numeral(self.0 as nat),
    {
        label("#role:", self.0 as u128)
    }
}

impl Default for PeerRoleId {
    fn default() -> (result: Self)
        ensures
            result.0 == 0,
    {
        PeerRoleId(0)
    }
}

impl Replicable for PeerRoleId {
    type Model = PeerRoleId;

    open spec fn model(self) -> PeerRoleId {
        self
    }

    open spec fn emit(self) -> Emitted {
        <u64 as Replicable>::emit(self.0)
    }

    open spec fn parse(prior: PeerRoleId, bytes: Seq<u8>) -> Applied<PeerRoleId> {
        let number = <u64 as Replicable>::parse(prior.0, bytes);
        Applied {
            model: PeerRoleId(number.model),
            error: number.error,
            consumed: number.consumed,
        }
    }

    proof fn parse_is_within(prior: PeerRoleId, bytes: Seq<u8>) {
        <u64 as Replicable>::parse_is_within(prior.0, bytes);
    }

    fn collect_changes(&self, buffer: &mut Buffer) -> (result: Result<(), Error>) {
        self.0.collect_changes(buffer)
    }

    fn apply_changes(&mut self, buffer: &mut Buffer) -> (result: Result<(), Error>) {
        self.0.apply_changes(buffer)
    }
}

impl DefaultReplicable for PeerRoleId {
    open spec fn blank() -> PeerRoleId {
        PeerRoleId(0)
    }

    proof fn default_is_blank(value: PeerRoleId) {
    }
}

impl LosslessReplicable for PeerRoleId {
    open spec fn fits(self) -> bool {
        true
    }

    proof fn law_round_trip(self, prior: PeerRoleId, tail: Seq<u8>) {
        <u64 as LosslessReplicable>::law_round_trip(self.0, prior.0, tail);
    }
}

/// Who a peer is.
#[derive(Debug, Clone, Copy, PartialEq, Eq, PartialOrd, Ord, Hash, Structural)]
pub struct PeerInfo {
    pub peer_id: PeerId,
    pub role_id: PeerRoleId,
    /// Whether the peer lives on another machine.
    pub remote: bool,
}

/// Has a peer destroyed when it is dropped.
#[derive(Debug, PartialEq, Eq, Structural)]
pub struct PeerKiller {
    pub peer_id: PeerId,
    pub destroy_on_drop: bool,
}

impl PeerKiller {
    pub fn new(peer_id: PeerId) -> (result: Self)
        ensures
            result == (PeerKiller { peer_id, destroy_on_drop: true }),
    {
        PeerKiller { peer_id, destroy_on_drop: true }
    }

    /// The peer that has to be destroyed when the killer is dropped.
    pub fn victim(&self) -> (result: Option<PeerId>)
        ensures
            result == (if self.destroy_on_drop {
                Some(self.peer_id)
            } else {
                None::<PeerId>
            }),
    {
        if self.destroy_on_drop {
            Some(self.peer_id)
        } else {
            None
        }
    }
}

/// One end of a channel, for messages of one type.
pub struct Endpoint<E> {
    /// Tells types of messages apart.
    pub message_type: u64,
    pub end: E,
}

/// User-side interface for a peer existing in a meeting.
/// Peer is constructed from peer role. It binds channels read/write interfaces
/// for communication on the user side.
pub struct Peer<R, S, D> {
    info: PeerInfo,
    user_data: PeerUserData<D>,
    receivers: OrderedMap<Endpoint<R>>,
    senders: OrderedMap<Endpoint<S>>,
    killer: PeerKiller,
}

/// What a [`Peer`] holds.
#[verifier::ext_equal]
pub struct PeerView<R, S, D> {
    pub info: PeerInfo,
    pub user_data: Seq<(u64, D)>,
    pub receivers: Seq<(u64, Endpoint<R>)>,
    pub senders: Seq<(u64, Endpoint<S>)>,
    pub killer: PeerKiller,
}

impl<R, S, D> View for Peer<R, S, D> {
    type V = PeerView<R, S, D>;

    closed spec fn view(&self) -> PeerView<R, S, D> {
        PeerView {
            info: self.info,
            user_data: self.user_data@,
            receivers: self.receivers@,
            senders: self.senders@,
            killer: self.killer,
        }
    }
}

impl<R, S, D> PeerView<R, S, D> {
    /// A peer without channels or data.
    pub open spec fn fresh(info: PeerInfo) -> Self {
        PeerView {
            info,
            user_data: Seq::empty(),
            receivers: Seq::empty(),
            senders: Seq::empty(),
            killer: PeerKiller { peer_id: info.peer_id, destroy_on_drop: true },
        }
    }

    /// The peer with other data.
    pub open spec fn given(self, user_data: Seq<(u64, D)>) -> Self {
        PeerView { user_data, ..self }
    }

    /// The peer once its parts may outlive it.
    pub open spec fn taken_apart(self) -> Self {
        PeerView { killer: PeerKiller { destroy_on_drop: false, ..self.killer }, ..self }
    }
}

/// What asking for an end of a channel gives, if there is one.
pub open spec fn found_end<E>(
    ends: Seq<(u64, Endpoint<E>)>,
    channel_id: ChannelId,
    message_type: u64,
    missing: Error,
) -> Result<E, Error> {
    match value_of(ends, channel_id.0) {
        None => Err(missing),
        Some(endpoint) => if endpoint.message_type == message_type {
            Ok(endpoint.end)
        } else {
            Err(Error::MessageTypeDiffers(channel_id.0))
        },
    }
}

impl<R, S, D> Peer<R, S, D> {
    pub fn new(info: PeerInfo) -> (result: Self)
        ensures
            result@ == PeerView::<R, S, D>::fresh(info),
    {
        Peer {
            info,
            user_data: PeerUserData::new(),
            receivers: OrderedMap::new(),
            senders: OrderedMap::new(),
            killer: PeerKiller::new(info.peer_id),
        }
    }

    /// The peer with data in place of what it had.
    pub fn with_user_data(self, data: PeerUserData<D>) -> (result: Self)
        ensures
            result@ == self@.given(data@),
    {
        let mut this = self;
        this.user_data = data;
        this
    }

    /// The data that the program keeps with the peer.
    pub fn user_data(&self) -> (result: &PeerUserData<D>)
        ensures
            result@ == self@.user_data,
    {
        &self.user_data
    }

    /// Takes the peer apart.
    pub fn destructure(self) -> (result: PeerDestructurer<R, S, D>)
        ensures
            result@ == self@.taken_apart(),
    {
        PeerDestructurer::new(self)
    }

    /// Turns the peer into a value of its role.
    pub fn into_typed<Ch, T: TypedPeer<Ch, R, S, D>>(self) -> (result: Result<T, Error>)
        ensures
            exists|parts: PeerDestructurer<R, S, D>|
                parts@ == self@.taken_apart() && #[trigger] T::typed(parts, result),
    {
        T::into_typed(self.destructure())
    }

    pub fn info(&self) -> (result: &PeerInfo)
        ensures
            *result == self@.info,
    {
        &self.info
    }

    /// What has the peer destroyed.
    pub fn killer(&self) -> (result: &PeerKiller)
        ensures
            *result == self@.killer,
    {
        &self.killer
    }

    /// The end to which messages for a channel are written.
    pub fn sender(&self, channel_id: ChannelId, message_type: u64) -> (result: Result<&S, Error>)
        ensures
            match found_end(
                self@.senders,
                channel_id,
                message_type,
                Error::NoSender(channel_id.0),
            ) {
                Ok(end) => result matches Ok(sender) && *sender == end,
                Err(error) => result matches Err(reason) && reason == error,
            },
    {
        match self.senders.get(channel_id.0) {
            None => Err(Error::NoSender(channel_id.0)),
            Some(endpoint) => if endpoint.message_type == message_type {
                Ok(&endpoint.end)
            } else {
                Err(Error::MessageTypeDiffers(channel_id.0))
            },
        }
    }

    /// The end from which messages of a channel are read.
    pub fn receiver(&self, channel_id: ChannelId, message_type: u64) -> (result: Result<&R, Error>)
        ensures
            match found_end(
                self@.receivers,
                channel_id,
                message_type,
                Error::NoReceiver(channel_id.0),
            ) {
                Ok(end) => result matches Ok(receiver) && *receiver == end,
                Err(error) => result matches Err(reason) && reason == error,
            },
    {
        match self.receivers.get(channel_id.0) {
            None => Err(Error::NoReceiver(channel_id.0)),
            Some(endpoint) => if endpoint.message_type == message_type {
                Ok(&endpoint.end)
            } else {
                Err(Error::MessageTypeDiffers(channel_id.0))
            },
        }
    }
}

impl<M, D> Peer<EventReceiver<M>, EventSender<M>, D> {
    /// Sends a message to a channel. Fails if the peer does not write such messages to it, or
    /// if nobody is left to take the message: whether somebody is, the channel tells.
    pub fn send(&self, channel_id: ChannelId, message_type: u64, message: M) -> (result: Result<
        (),
        Error,
    >)
        ensures
            match found_end(
                self@.senders,
                channel_id,
                message_type,
                Error::NoSender(channel_id.0),
            ) {
                Ok(end) => exists|sent: Result<(), M>| #[trigger]
                    end.takes(message, sent) && result == sending(sent),
                Err(error) => result == Err::<(), Error>(error),
            },
    {
        match self.sender(channel_id, message_type) {
            Ok(sender) => sender.send(message),
            Err(error) => Err(error),
        }
    }

    /// Takes the first message from a channel, if there is one. Fails if the peer does not read
    /// such messages from it, or if there is none and nobody is left to send one: what there is,
    /// the channel tells.
    pub fn recv(&self, channel_id: ChannelId, message_type: u64) -> (result: Result<
        Option<M>,
        Error,
    >)
        ensures
            match found_end(
                self@.receivers,
                channel_id,
                message_type,
                Error::NoReceiver(channel_id.0),
            ) {
                Ok(end) => exists|received: Received<M>| #[trigger]
                    end.gives(received) && result == receiving(received),
                Err(error) => result == Err::<Option<M>, Error>(error),
            },
    {
        match self.receiver(channel_id, message_type) {
            Ok(receiver) => receiver.recv(),
            Err(error) => Err(error),
        }
    }
}

/// A channel that a builder holds, and how it carries packets.
pub struct PeerBuilderChannel<Ch> {
    pub mode: ChannelMode,
    /// How many messages the channel holds at most, if there is a limit.
    pub capacity: Option<usize>,
    pub channel: Ch,
}

/// Gives a peer its channels.
pub struct PeerBuilder<Ch, R, S, D> {
    peer: Peer<R, S, D>,
    read_channels: OrderedMap<PeerBuilderChannel<Ch>>,
    write_channels: OrderedMap<PeerBuilderChannel<Ch>>,
}

/// What a [`PeerBuilder`] holds.
#[verifier::ext_equal]
pub struct BuilderView<Ch, R, S, D> {
    pub peer: PeerView<R, S, D>,
    pub reads: Seq<(u64, PeerBuilderChannel<Ch>)>,
    pub writes: Seq<(u64, PeerBuilderChannel<Ch>)>,
}

impl<Ch, R, S, D> View for PeerBuilder<Ch, R, S, D> {
    type V = BuilderView<Ch, R, S, D>;

    closed spec fn view(&self) -> BuilderView<Ch, R, S, D> {
        BuilderView {
            peer: self.peer@,
            reads: self.read_channels@,
            writes: self.write_channels@,
        }
    }
}

impl<Ch, R, S, D> BuilderView<Ch, R, S, D> {
    /// A builder that holds no channels yet.
    pub open spec fn of(peer: PeerView<R, S, D>) -> Self {
        BuilderView { peer, reads: Seq::empty(), writes: Seq::empty() }
    }

    /// The builder with one more channel to read from.
    pub open spec fn reading(
        self,
        channel_id: ChannelId,
        channel: PeerBuilderChannel<Ch>,
        receiver: Endpoint<R>,
    ) -> Self {
        BuilderView {
            peer: PeerView {
                receivers: with_value(self.peer.receivers, channel_id.0, receiver),
                ..self.peer
            },
            reads: with_value(self.reads, channel_id.0, channel),
            ..self
        }
    }

    /// The builder with one more channel to write to.
    pub open spec fn writing(
        self,
        channel_id: ChannelId,
        channel: PeerBuilderChannel<Ch>,
        sender: Endpoint<S>,
    ) -> Self {
        BuilderView {
            peer: PeerView {
                senders: with_value(self.peer.senders, channel_id.0, sender),
                ..self.peer
            },
            writes: with_value(self.writes, channel_id.0, channel),
            ..self
        }
    }

    /// The channels in the order of their numbers, those that read first.
    pub open spec fn channels(self) -> Seq<Ch> {
        only_channels(self.reads) + only_channels(self.writes)
    }

    /// How a machine reaches the peer.
    pub open spec fn descriptor(self) -> DescriptorView {
        DescriptorView {
            info: self.peer.info,
            senders: empty_queues(self.reads),
            receivers: empty_queues(self.writes),
        }
    }
}

/// The channels alone, in their order.
pub open spec fn only_channels<Ch>(entries: Seq<(u64, PeerBuilderChannel<Ch>)>) -> Seq<Ch> {
    Seq::new(entries.len(), |i: int| entries[i].1.channel)
}

/// A way for packets to or from each channel, with none on it.
pub open spec fn empty_queues<Ch>(entries: Seq<(u64, PeerBuilderChannel<Ch>)>) -> Seq<
    (u64, QueueView),
> {
    Seq::new(
        entries.len(),
        |i: int| (entries[i].0, QueueView { mode: entries[i].1.mode, packets: Seq::empty() }),
    )
}

/// What becomes of a peer when it is built.
pub struct PeerBuildResult<Ch, R, S, D> {
    pub peer: Peer<R, S, D>,
    pub channels: Vec<Ch>,
    pub descriptor: EnginePeerDescriptor,
}

impl<Ch, R, S, D> PeerBuildResult<Ch, R, S, D> {
    /// Whether this is what the builder makes.
    pub open spec fn is_built_from(self, builder: BuilderView<Ch, R, S, D>) -> bool {
        &&& self.peer@ == builder.peer
        &&& self.channels@ == builder.channels()
        &&& self.descriptor@ == builder.descriptor()
    }
}

impl<Ch, R, S, D> PeerBuilder<Ch, R, S, D> {
    pub fn new(peer: Peer<R, S, D>) -> (result: Self)
        ensures
            result@ == BuilderView::<Ch, R, S, D>::of(peer@),
    {
        PeerBuilder {
            peer,
            read_channels: OrderedMap::new(),
            write_channels: OrderedMap::new(),
        }
    }

    pub fn info(&self) -> (result: &PeerInfo)
        ensures
            *result == self@.peer.info,
    {
        &self.peer.info
    }

    /// The data that the program keeps with the peer.
    pub fn user_data(&self) -> (result: &PeerUserData<D>)
        ensures
            result@ == self@.peer.user_data,
    {
        self.peer.user_data()
    }

    /// Has the peer read from a channel. A channel that it read from under the same number is
    /// replaced.
    pub fn bind_read(
        self,
        channel_id: ChannelId,
        mode: ChannelMode,
        capacity: Option<usize>,
        channel: Ch,
        message_type: u64,
        receiver: R,
    ) -> (result: Self)
        ensures
            result@ == self@.reading(
                channel_id,
                (PeerBuilderChannel { mode, capacity, channel }),
                (Endpoint { message_type, end: receiver }),
            ),
    {
        let mut this = self;
        this.read_channels.insert(channel_id.0, PeerBuilderChannel { mode, capacity, channel });
        this.peer.receivers.insert(channel_id.0, Endpoint { message_type, end: receiver });
        this
    }

    /// Has the peer write to a channel. A channel that it wrote to under the same number is
    /// replaced.
    pub fn bind_write(
        self,
        channel_id: ChannelId,
        mode: ChannelMode,
        capacity: Option<usize>,
        channel: Ch,
        message_type: u64,
        sender: S,
    ) -> (result: Self)
        ensures
            result@ == self@.writing(
                channel_id,
                (PeerBuilderChannel { mode, capacity, channel }),
                (Endpoint { message_type, end: sender }),
            ),
    {
        let mut this = self;
        this.write_channels.insert(channel_id.0, PeerBuilderChannel { mode, capacity, channel });
        this.peer.senders.insert(channel_id.0, Endpoint { message_type, end: sender });
        this
    }

    /// Has the peer read from a channel and write to it.
    pub fn bind_read_write(
        self,
        channel_id: ChannelId,
        mode: ChannelMode,
        capacity: Option<usize>,
        reading: Ch,
        writing: Ch,
        message_type: u64,
        receiver: R,
        sender: S,
    ) -> (result: Self)
        ensures
            result@ == self@.reading(
                channel_id,
                (PeerBuilderChannel { mode, capacity, channel: reading }),
                (Endpoint { message_type, end: receiver }),
            ).writing(
                channel_id,
                (PeerBuilderChannel { mode, capacity, channel: writing }),
                (Endpoint { message_type, end: sender }),
            ),
    {
        self.bind_read(channel_id, mode, capacity, reading, message_type, receiver).bind_write(
            channel_id,
            mode,
            capacity,
            writing,
            message_type,
            sender,
        )
    }

    /// Makes the peer, its channels and the ways for packets to and from them.
    pub fn build(self) -> (result: PeerBuildResult<Ch, R, S, D>)
        ensures
            result.is_built_from(self@),
    {
        let ghost builder = self@;
        let PeerBuilder { peer, mut read_channels, mut write_channels } = self;
        let mut channels: Vec<Ch> = Vec::new();
        let mut packet_senders: OrderedMap<EnginePacketSender> = OrderedMap::new();
        let mut packet_receivers: OrderedMap<EnginePacketReceiver> = OrderedMap::new();
        let reads: usize = read_channels.len();
        let mut i: usize = 0;
        while i < reads
            invariant
                i <= reads,
                reads == builder.reads.len(),
                keys_ascend(builder.reads),
                read_channels@ == builder.reads.skip(i as int),
                channels@ == only_channels(builder.reads).take(i as int),
                viewed(packet_senders@) == empty_queues(builder.reads).take(i as int),
            decreases reads - i,
        {
            let ghost before = packet_senders@;
            assert(viewed(before).len() == i);
            assert(i > 0 ==> viewed(before)[i - 1] == empty_queues(builder.reads)[i - 1]);
            assert(i > 0 ==> builder.reads[i - 1].0 < builder.reads[i as int].0);
            if let Some((key, entry)) = read_channels.pop_first() {
                channels.push(entry.channel);
                packet_senders.push_last(
                    key,
                    EnginePacketSender { mode: entry.mode, sender: VecDeque::new() },
                );
            }
            i = i + 1;
            assert(viewed(packet_senders@) =~= empty_queues(builder.reads).take(i as int)) by {
                assert(viewed(packet_senders@).drop_last() =~= viewed(before));
                assert(packet_senders@.last().1@ =~= empty_queues(builder.reads)[i - 1].1);
            }
            assert(channels@ =~= only_channels(builder.reads).take(i as int));
            assert(read_channels@ =~= builder.reads.skip(i as int));
        }
        let writes: usize = write_channels.len();
        let mut i: usize = 0;
        while i < writes
            invariant
                i <= writes,
                writes == builder.writes.len(),
                keys_ascend(builder.writes),
                write_channels@ == builder.writes.skip(i as int),
                channels@ == only_channels(builder.reads) + only_channels(builder.writes).take(
                    i as int,
                ),
                viewed(packet_receivers@) == empty_queues(builder.writes).take(i as int),
            decreases writes - i,
        {
            let ghost before = packet_receivers@;
            assert(viewed(before).len() == i);
            assert(i > 0 ==> viewed(before)[i - 1] == empty_queues(builder.writes)[i - 1]);
            assert(i > 0 ==> builder.writes[i - 1].0 < builder.writes[i as int].0);
            if let Some((key, entry)) = write_channels.pop_first() {
                channels.push(entry.channel);
                packet_receivers.push_last(
                    key,
                    EnginePacketReceiver { mode: entry.mode, receiver: VecDeque::new() },
                );
            }
            i = i + 1;
            assert(viewed(packet_receivers@) =~= empty_queues(builder.writes).take(i as int)) by {
                assert(viewed(packet_receivers@).drop_last() =~= viewed(before));
                assert(packet_receivers@.last().1@ =~= empty_queues(builder.writes)[i - 1].1);
            }
            assert(channels@ =~= only_channels(builder.reads) + only_channels(
                builder.writes,
            ).take(i as int));
            assert(write_channels@ =~= builder.writes.skip(i as int));
        }
        let descriptor = EnginePeerDescriptor {
            info: peer.info,
            packet_senders,
            packet_receivers,
        };
        assert(channels@ =~= builder.channels());
        assert(descriptor@ =~= builder.descriptor());
        PeerBuildResult { peer, channels, descriptor }
    }
}

/// A peer whose role has a type.
pub trait TypedPeer<Ch, R, S, D>: Sized {
    /// Whether outfitting a builder for the role can give this.
    spec fn outfits(
        builder: PeerBuilder<Ch, R, S, D>,
        result: Result<PeerBuilder<Ch, R, S, D>, Error>,
    ) -> bool;

    /// Whether turning a peer that was taken apart into a value of the role can give this.
    spec fn typed(peer: PeerDestructurer<R, S, D>, result: Result<Self, Error>) -> bool;

    /// Gives a peer the channels of the role.
    fn builder(builder: PeerBuilder<Ch, R, S, D>) -> (result: Result<PeerBuilder<Ch, R, S, D>, Error>)
        ensures
            Self::outfits(builder, result),
    ;

    /// Takes the ends that the role needs.
    fn into_typed(peer: PeerDestructurer<R, S, D>) -> (result: Result<Self, Error>)
        ensures
            Self::typed(peer, result),
    ;
}

/// A role that has a number.
pub trait TypedPeerRole<Ch, R, S, D>: TypedPeer<Ch, R, S, D> {
    /// The number of the role.
    spec fn role() -> PeerRoleId;

    fn role_id() -> (result: PeerRoleId)
        ensures
            result == Self::role(),
    ;
}

impl<Ch, R, S, D> TypedPeer<Ch, R, S, D> for () {
    open spec fn outfits(
        builder: PeerBuilder<Ch, R, S, D>,
        result: Result<PeerBuilder<Ch, R, S, D>, Error>,
    ) -> bool {
        result == Ok::<PeerBuilder<Ch, R, S, D>, Error>(builder)
    }

    open spec fn typed(peer: PeerDestructurer<R, S, D>, result: Result<(), Error>) -> bool {
        result is Ok
    }

    fn builder(builder: PeerBuilder<Ch, R, S, D>) -> (result: Result<PeerBuilder<Ch, R, S, D>, Error>) {
        Ok(builder)
    }

    fn into_typed(peer: PeerDestructurer<R, S, D>) -> (result: Result<(), Error>) {
        Ok(())
    }
}

/// Both ends of a channel.
pub struct Duplex<S, R> {
    pub sender: S,
    pub receiver: R,
}

/// A peer that is taken apart.
pub struct PeerDestructurer<R, S, D> {
    peer: Peer<R, S, D>,
}

impl<R, S, D> View for PeerDestructurer<R, S, D> {
    type V = PeerView<R, S, D>;

    closed spec fn view(&self) -> PeerView<R, S, D> {
        self.peer@
    }
}

impl<R, S, D> PeerDestructurer<R, S, D> {
    pub fn new(peer: Peer<R, S, D>) -> (result: Self)
        ensures
            result@ == peer@.taken_apart(),
    {
        let mut peer = peer;
        peer.killer.destroy_on_drop = false;
        PeerDestructurer { peer }
    }

    pub fn into_peer(self) -> (result: Peer<R, S, D>)
        ensures
            result@ == self@,
    {
        self.peer
    }

    pub fn info(&self) -> (result: &PeerInfo)
        ensures
            *result == self@.info,
    {
        self.peer.info()
    }

    /// The data that the program keeps with the peer.
    pub fn user_data(&self) -> (result: &PeerUserData<D>)
        ensures
            result@ == self@.user_data,
    {
        self.peer.user_data()
    }

    /// A killer of its own for the peer.
    pub fn killer(&mut self) -> (result: PeerKiller)
        ensures
            final(self)@ == old(self)@,
            result == (PeerKiller { peer_id: old(self)@.info.peer_id, destroy_on_drop: true }),
    {
        PeerKiller::new(self.peer.info.peer_id)
    }

    /// Takes the end from which messages of a channel are read. It is gone from the peer, even
    /// if the channel carries messages of another type.
    pub fn read(&mut self, channel_id: ChannelId, message_type: u64) -> (result: Result<R, Error>)
        ensures
            result == found_end(
                old(self)@.receivers,
                channel_id,
                message_type,
                Error::NoReceiver(channel_id.0),
            ),
            final(self)@ == (PeerView {
                receivers: without_key(old(self)@.receivers, channel_id.0),
                ..old(self)@
            }),
    {
        match self.peer.receivers.remove(channel_id.0) {
            None => Err(Error::NoReceiver(channel_id.0)),
            Some(endpoint) => if endpoint.message_type == message_type {
                Ok(endpoint.end)
            } else {
                Err(Error::MessageTypeDiffers(channel_id.0))
            },
        }
    }

    /// Takes the end to which messages for a channel are written. It is gone from the peer, even
    /// if the channel carries messages of another type.
    pub fn write(&mut self, channel_id: ChannelId, message_type: u64) -> (result: Result<S, Error>)
        ensures
            result == found_end(
                old(self)@.senders,
                channel_id,
                message_type,
                Error::NoSender(channel_id.0),
            ),
            final(self)@ == (PeerView {
                senders: without_key(old(self)@.senders, channel_id.0),
                ..old(self)@
            }),
    {
        match self.peer.senders.remove(channel_id.0) {
            None => Err(Error::NoSender(channel_id.0)),
            Some(endpoint) => if endpoint.message_type == message_type {
                Ok(endpoint.end)
            } else {
                Err(Error::MessageTypeDiffers(channel_id.0))
            },
        }
    }

    /// Takes both ends of a channel. The end for writing stays if there is none for reading.
    pub fn read_write(&mut self, channel_id: ChannelId, message_type: u64) -> (result: Result<
        Duplex<S, R>,
        Error,
    >)
        ensures
            match found_end(
                old(self)@.receivers,
                channel_id,
                message_type,
                Error::NoReceiver(channel_id.0),
            ) {
                Err(error) => {
                    &&& result == Err::<Duplex<S, R>, Error>(error)
                    &&& final(self)@ == (PeerView {
                        receivers: without_key(old(self)@.receivers, channel_id.0),
                        ..old(self)@
                    })
                },
                Ok(receiver) => {
                    &&& final(self)@ == (PeerView {
                        receivers: without_key(old(self)@.receivers, channel_id.0),
                        senders: without_key(old(self)@.senders, channel_id.0),
                        ..old(self)@
                    })
                    &&& match found_end(
                        old(self)@.senders,
                        channel_id,
                        message_type,
                        Error::NoSender(channel_id.0),
                    ) {
                        Err(error) => result == Err::<Duplex<S, R>, Error>(error),
                        Ok(sender) => result == Ok::<Duplex<S, R>, Error>(
                            Duplex { sender, receiver },
                        ),
                    }
                },
            },
    {
        match self.read(channel_id, message_type) {
            Err(error) => Err(error),
            Ok(receiver) => match self.write(channel_id, message_type) {
                Err(error) => Err(error),
                Ok(sender) => Ok(Duplex { sender, receiver }),
            },
        }
    }
}

/// Tells how peers of each role get their channels, and holds the data that all of them share.
pub struct PeerFactory<F, D> {
    registry: OrderedMap<F>,
    user_data: PeerUserData<D>,
}

/// What a [`PeerFactory`] holds.
#[verifier::ext_equal]
pub struct FactoryView<F, D> {
    pub registry: Seq<(u64, F)>,
    pub user_data: Seq<(u64, D)>,
}

impl<F, D> View for PeerFactory<F, D> {
    type V = FactoryView<F, D>;

    closed spec fn view(&self) -> FactoryView<F, D> {
        FactoryView { registry: self.registry@, user_data: self.user_data@ }
    }
}

impl<F, D> FactoryView<F, D> {
    /// A factory that knows no role and holds no data.
    pub open spec fn empty() -> Self {
        FactoryView { registry: Seq::empty(), user_data: Seq::empty() }
    }

    /// The factory that also knows how peers of a role get their channels.
    pub open spec fn knowing(self, role_id: PeerRoleId, outfit: F) -> Self {
        FactoryView { registry: with_value(self.registry, role_id.0, outfit), ..self }
    }
}

/// Whether every way to give a peer its channels takes every builder.
pub open spec fn takes_every_builder<Ch, R, S, D, F>(factory: FactoryView<F, D>) -> bool where
    F: Fn(PeerBuilder<Ch, R, S, D>) -> Result<PeerBuilder<Ch, R, S, D>, Error>,
 {
    forall|i: int, builder: PeerBuilder<Ch, R, S, D>|
        0 <= i < factory.registry.len() ==> #[trigger] call_requires(
            factory.registry[i].1,
            (builder,),
        )
}

/// Whether making a peer can give this. The peer gets the data of the factory.
pub open spec fn creates<Ch, R, S, D, F>(
    factory: FactoryView<F, D>,
    peer: PeerView<R, S, D>,
    result: Result<PeerBuildResult<Ch, R, S, D>, Error>,
) -> bool where F: Fn(PeerBuilder<Ch, R, S, D>) -> Result<PeerBuilder<Ch, R, S, D>, Error> {
    if has_key(factory.registry, peer.info.role_id.0) {
        exists|
            builder: PeerBuilder<Ch, R, S, D>,
            outfitted: Result<PeerBuilder<Ch, R, S, D>, Error>,
        | #[trigger]
            creates_from(
                factory.registry[place_of(factory.registry, peer.info.role_id.0)].1,
                peer.given(factory.user_data),
                builder,
                outfitted,
                result,
            )
    } else {
        result matches Err(error) && error == Error::UnknownRole(peer.info.role_id.0)
    }
}

/// Whether outfitting `builder` can give `outfitted`, and making the peer this.
pub open spec fn creates_from<Ch, R, S, D, F>(
    outfit: F,
    peer: PeerView<R, S, D>,
    builder: PeerBuilder<Ch, R, S, D>,
    outfitted: Result<PeerBuilder<Ch, R, S, D>, Error>,
    result: Result<PeerBuildResult<Ch, R, S, D>, Error>,
) -> bool where F: Fn(PeerBuilder<Ch, R, S, D>) -> Result<PeerBuilder<Ch, R, S, D>, Error> {
    &&& builder@ == BuilderView::<Ch, R, S, D>::of(peer)
    &&& call_ensures(outfit, (builder,), outfitted)
    &&& match outfitted {
        Err(error) => result matches Err(reason) && reason == error,
        Ok(ready) => result matches Ok(made) && made.is_built_from(ready@),
    }
}

impl<F, D> PeerFactory<F, D> {
    /// Whether asking if nobody else shares the data can give `alone`.
    pub closed spec fn alone(self, alone: bool) -> bool {
        self.user_data.alone(alone)
    }

    /// The factory with data in place of what it had.
    pub fn new(self, user_data: PeerUserData<D>) -> (result: Self)
        ensures
            result@ == (FactoryView { user_data: user_data@, ..self@ }),
    {
        let mut this = self;
        this.user_data = user_data;
        this
    }

    /// The factory with one more piece of data, in place of one of the same type. Fails if
    /// others share the data, such as a peer that the factory made.
    pub fn with_user_data(self, data_type: u64, data: D) -> (result: Result<Self, Error>)
        ensures
            exists|alone: bool| #[trigger]
                self.alone(alone) && match result {
                    Ok(after) => alone && after@ == (FactoryView {
                        user_data: with_value(self@.user_data, data_type, data),
                        ..self@
                    }),
                    Err(error) => !alone && error == Error::Frozen,
                },
    {
        let PeerFactory { registry, user_data } = self;
        let result = user_data.with(data_type, data);
        proof {
            let alone = choose|alone: bool| #[trigger]
                user_data.alone(alone) && match result {
                    Ok(after) => alone && after@ == with_value(user_data@, data_type, data),
                    Err(error) => !alone && error == Error::Frozen,
                };
            assert(self.alone(alone));
        }
        match result {
            Ok(user_data) => Ok(PeerFactory { registry, user_data }),
            Err(error) => Err(error),
        }
    }

    /// Tells how peers of a role get their channels, in place of what was told before.
    pub fn register(&mut self, role_id: PeerRoleId, outfit: F)
        ensures
            final(self)@ == old(self)@.knowing(role_id, outfit),
    {
        self.registry.insert(role_id.0, outfit);
    }

    /// The factory that also knows how peers of a role get their channels.
    pub fn with(self, role_id: PeerRoleId, outfit: F) -> (result: Self)
        ensures
            result@ == self@.knowing(role_id, outfit),
    {
        let mut this = self;
        this.register(role_id, outfit);
        this
    }

    /// Makes a peer of its role, which gets the data of the factory.
    pub fn create<Ch, R, S>(&self, peer: Peer<R, S, D>) -> (result: Result<
        PeerBuildResult<Ch, R, S, D>,
        Error,
    >) where F: Fn(PeerBuilder<Ch, R, S, D>) -> Result<PeerBuilder<Ch, R, S, D>, Error>
        requires
            takes_every_builder::<Ch, R, S, D, F>(self@),
        ensures
            creates::<Ch, R, S, D, F>(self@, peer@, result),
    {
        let ghost before = peer@;
        let role: u64 = peer.info.role_id.0;
        let (place, found): (usize, bool) = self.registry.find(role);
        if !found {
            return Err(Error::UnknownRole(role));
        }
        let outfit = self.registry.value(place);
        let builder = PeerBuilder::new(peer.with_user_data(self.user_data.clone()));
        assert(call_requires(self@.registry[place as int].1, (builder,)));
        let outfitted = outfit(builder);
        assert(call_ensures(*outfit, (builder,), outfitted));
        let result = match outfitted {
            Err(error) => Err(error),
            Ok(ready) => Ok(ready.build()),
        };
        assert(creates_from(
            *outfit,
            before.given(self@.user_data),
            builder,
            outfitted,
            result,
        ));
        result
    }
}

impl<F, D> Default for PeerFactory<F, D> {
    /// A factory that knows no role and holds no data.
    fn default() -> (result: Self)
        ensures
            result@ == FactoryView::<F, D>::empty(),
    {
        PeerFactory { registry: OrderedMap::new(), user_data: PeerUserData::new() }
    }
}

/// Giving a peer channels leaves its data as it is.
pub proof fn law_channels_leave_data<Ch, R, S, D>(
    builder: BuilderView<Ch, R, S, D>,
    channel_id: ChannelId,
    channel: PeerBuilderChannel<Ch>,
    receiver: Endpoint<R>,
    sender: Endpoint<S>,
)
    ensures
        builder.reading(channel_id, channel, receiver).peer.user_data == builder.peer.user_data,
        builder.writing(channel_id, channel, sender).peer.user_data == builder.peer.user_data,
{
}

/// An end that was bound under a channel is found there by those who know its type of messages;
/// others are told that the type differs, and of channels that were not bound that they are
/// missing.
pub proof fn law_bound_ends_are_found<E>(
    ends: Seq<(u64, Endpoint<E>)>,
    channel_id: ChannelId,
    endpoint: Endpoint<E>,
    other: ChannelId,
    message_type: u64,
    missing: Error,
)
    requires
        keys_ascend(ends),
    ensures
        ({
            let bound = with_value(ends, channel_id.0, endpoint);
            &&& found_end(bound, channel_id, endpoint.message_type, missing) == Ok::<E, Error>(
                endpoint.end,
            )
            &&& message_type != endpoint.message_type ==> found_end(
                bound,
                channel_id,
                message_type,
                missing,
            ) == Err::<E, Error>(Error::MessageTypeDiffers(channel_id.0))
            &&& other != channel_id ==> found_end(bound, other, message_type, missing)
                == found_end(ends, other, message_type, missing)
            &&& found_end(Seq::<(u64, Endpoint<E>)>::empty(), other, message_type, missing) == Err::<
                E,
                Error,
            >(missing)
        }),
{
    law_with_value(ends, channel_id.0, endpoint, channel_id.0);
    law_with_value(ends, channel_id.0, endpoint, other.0);
}

/// Binding a channel for reading gives the peer an end to receive from and nothing to send to,
/// and binding one for writing the other way round; the channel is kept under its number.
pub proof fn law_bound_for_one_way<Ch, R, S, D>(
    builder: BuilderView<Ch, R, S, D>,
    channel_id: ChannelId,
    channel: PeerBuilderChannel<Ch>,
    receiver: Endpoint<R>,
    sender: Endpoint<S>,
)
    requires
        keys_ascend(builder.peer.receivers),
        keys_ascend(builder.peer.senders),
        keys_ascend(builder.reads),
        keys_ascend(builder.writes),
    ensures
        ({
            let read = builder.reading(channel_id, channel, receiver);
            &&& value_of(read.peer.receivers, channel_id.0) == Some(receiver)
            &&& value_of(read.reads, channel_id.0) == Some(channel)
            &&& read.peer.senders == builder.peer.senders
            &&& read.writes == builder.writes
            &&& read.peer.info == builder.peer.info
            &&& read.peer.killer == builder.peer.killer
        }),
        ({
            let written = builder.writing(channel_id, channel, sender);
            &&& value_of(written.peer.senders, channel_id.0) == Some(sender)
            &&& value_of(written.writes, channel_id.0) == Some(channel)
            &&& written.peer.receivers == builder.peer.receivers
            &&& written.reads == builder.reads
            &&& written.peer.info == builder.peer.info
            &&& written.peer.killer == builder.peer.killer
        }),
{
    law_with_value(builder.peer.receivers, channel_id.0, receiver, channel_id.0);
    law_with_value(builder.peer.senders, channel_id.0, sender, channel_id.0);
    law_with_value(builder.reads, channel_id.0, channel, channel_id.0);
    law_with_value(builder.writes, channel_id.0, channel, channel_id.0);
}

/// A peer that was built is the peer of the builder, with all its channels: those that read
/// before those that write. The machine gets a queue without packets for each: to send what a
/// channel is to read, and to receive what one wrote.
pub proof fn law_built_with_all_channels<Ch, R, S, D>(
    builder: BuilderView<Ch, R, S, D>,
    built: PeerBuildResult<Ch, R, S, D>,
    place: int,
)
    requires
        built.is_built_from(builder),
    ensures
        built.peer@ == builder.peer,
        built.channels@.len() == builder.reads.len() + builder.writes.len(),
        built.descriptor@.info == builder.peer.info,
        built.descriptor@.senders.len() == builder.reads.len(),
        built.descriptor@.receivers.len() == builder.writes.len(),
        0 <= place < builder.reads.len() ==> {
            &&& built.channels@[place] == builder.reads[place].1.channel
            &&& built.descriptor@.senders[place].0 == builder.reads[place].0
            &&& built.descriptor@.senders[place].1.mode == builder.reads[place].1.mode
            &&& built.descriptor@.senders[place].1.packets.len() == 0
        },
        0 <= place < builder.writes.len() ==> {
            &&& built.channels@[builder.reads.len() + place] == builder.writes[place].1.channel
            &&& built.descriptor@.receivers[place].0 == builder.writes[place].0
            &&& built.descriptor@.receivers[place].1.mode == builder.writes[place].1.mode
            &&& built.descriptor@.receivers[place].1.packets.len() == 0
        },
{
}

/// A factory outfits a peer of a role as was registered for it last, and gives it its data; of a
/// role that was never registered it makes none. What the outfit gives is built, and where it
/// fails, the making does.
pub proof fn law_made_as_registered<Ch, R, S, D, F>(
    factory: FactoryView<F, D>,
    role_id: PeerRoleId,
    outfit: F,
    peer: PeerView<R, S, D>,
    result: Result<PeerBuildResult<Ch, R, S, D>, Error>,
) -> (outfitted: (PeerBuilder<Ch, R, S, D>, Result<PeerBuilder<Ch, R, S, D>, Error>)) where
    F: Fn(PeerBuilder<Ch, R, S, D>) -> Result<PeerBuilder<Ch, R, S, D>, Error>,

    requires
        keys_ascend(factory.registry),
        creates::<Ch, R, S, D, F>(factory.knowing(role_id, outfit), peer, result),
        peer.info.role_id == role_id,
    ensures
        factory.knowing(role_id, outfit).user_data == factory.user_data,
        outfitted.0@.peer.user_data == factory.user_data,
        outfitted.0@.peer.info == peer.info,
        outfitted.0@.reads.len() == 0,
        outfitted.0@.writes.len() == 0,
        call_ensures(outfit, (outfitted.0,), outfitted.1),
        outfitted.1 matches Err(error) ==> result matches Err(reason) && reason == error,
        outfitted.1 matches Ok(ready) ==> result matches Ok(made) && made.is_built_from(ready@),
{
    let known = factory.knowing(role_id, outfit);
    law_with_value(factory.registry, role_id.0, outfit, role_id.0);
    assert(value_of(known.registry, role_id.0) == Some(outfit));
    let (builder, ready) = choose|
        builder: PeerBuilder<Ch, R, S, D>,
        ready: Result<PeerBuilder<Ch, R, S, D>, Error>,
    | #[trigger]
        creates_from(
            known.registry[place_of(known.registry, peer.info.role_id.0)].1,
            peer.given(known.user_data),
            builder,
            ready,
            result,
        );
    (builder, ready)
}

/// A role that was never registered is not known, and registering one changes no other.
pub proof fn law_unknown_roles_are_refused<Ch, R, S, D, F>(
    factory: FactoryView<F, D>,
    role_id: PeerRoleId,
    outfit: F,
    other: PeerRoleId,
    peer: PeerView<R, S, D>,
    result: Result<PeerBuildResult<Ch, R, S, D>, Error>,
) where F: Fn(PeerBuilder<Ch, R, S, D>) -> Result<PeerBuilder<Ch, R, S, D>, Error>
    requires
        keys_ascend(factory.registry),
    ensures
        !has_key(factory.registry, peer.info.role_id.0) && creates::<Ch, R, S, D, F>(
            factory,
            peer,
            result,
        ) ==> (result matches Err(error) && error == Error::UnknownRole(peer.info.role_id.0)),
        other != role_id ==> value_of(factory.knowing(role_id, outfit).registry, other.0)
            == value_of(factory.registry, other.0),
        FactoryView::<F, D>::empty().registry.len() == 0,
        FactoryView::<F, D>::empty().user_data.len() == 0,
{
    law_with_value(factory.registry, role_id.0, outfit, other.0);
}

/// A new peer has no channels and no data and is destroyed when it is dropped; one that was taken
/// apart is not, and keeps all else.
pub proof fn law_peers_are_destroyed_once<R, S, D>(info: PeerInfo, peer: PeerView<R, S, D>)
    ensures
        ({
            let fresh = PeerView::<R, S, D>::fresh(info);
            &&& fresh.info == info
            &&& fresh.user_data.len() == 0
            &&& fresh.receivers.len() == 0
            &&& fresh.senders.len() == 0
            &&& fresh.killer.peer_id == info.peer_id
            &&& fresh.killer.destroy_on_drop
        }),
        ({
            let apart = peer.taken_apart();
            &&& !apart.killer.destroy_on_drop
            &&& apart.killer.peer_id == peer.killer.peer_id
            &&& apart.info == peer.info
            &&& apart.user_data == peer.user_data
            &&& apart.receivers == peer.receivers
            &&& apart.senders == peer.senders
        }),
{
}

} // verus!
