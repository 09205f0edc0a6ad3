//! Machines that take part in a meeting.

use std::collections::VecDeque;
use vstd::prelude::*;

use crate::buffer::Buffer;
use crate::channel::{ChannelId, ChannelMode, Pump};
use crate::error::Error;
use crate::label::{label, numeral};
use crate::meeting::{
    EngineEventView, Meeting, MeetingEngineEvent, MeetingUserEvent, MeetingView,
};
use crate::ordered_map::{
    has_key, keys_ascend, law_with_value, law_without_key, law_without_what_was_added,
    lemma_place, lemma_same_keys, lemma_viewed, lemma_viewed_update, value_of, viewed,
    with_value, without_key, OrderedMap,
};
use crate::outgoing::{
    all_taken, frame_at, frames_before, law_left_and_sent_make_all,
    law_peers_left_and_sent_make_all, law_spread_up_to_the_first_gone, lemma_same_machines, lemma_single_addressed,
    lemma_spread_out, peers_left, refused, same_machines, send_all, sending_stuck_at, sent_partly,
    spread, spread_out,
};
use crate::peer::{takes_every_builder, PeerBuilder, PeerFactory, PeerId, PeerInfo, PeerRoleId};
use crate::protocol::{
    PacketDataView, ProtocolControlFrame, ProtocolPacketData, RoutedFrame, RoutedFrameView,
};
use crate::replication::{DefaultReplicable, LosslessReplicable, Replicable};
use crate::wire::{failure, Applied, Emitted};
use crate::wiring::{all_carried, carry_all};

verus! {

broadcast use vstd::std_specs::vecdeque::group_vec_dequeue_axioms;

/// Tells machines apart.
#[derive(Debug, Clone, Copy, PartialEq, Eq, PartialOrd, Ord, Hash, Structural)]
pub struct EngineId(pub u128);

/// `typid::ID::default`, as a number: a fresh random id. Nothing is claimed of it.
#[verifier::external_body]
fn random_id() -> (result: u128) {
    typid::ID::<()>::default().uuid().as_u128()
}

/// Whether the number can be one that was drawn at random.
pub closed spec fn drawn(id: u128) -> bool {
    call_ensures(random_id, (), id)
}

/// A fresh number, picked at random.
pub fn draw() -> (result: u128)
    ensures
        drawn(result),
{
    random_id()
}

impl EngineId {
    /// A fresh id, picked at random.
    pub fn uuid() -> (result: Self)
        ensures
            drawn(result.0),
    {
        EngineId(draw())
    }

    pub fn new(id: u128) -> (result: Self)
        ensures
            result.0 == id,
    {
        EngineId(id)
    }

    pub fn id(&self) -> (result: u128)
        ensures
            result == self.0,
    {
        self.0
    }

    /// The id as text.
    pub fn to_text(&self) -> (result: String)
        ensures
            result@ == "#engine:"@ + numeral(self.0 as nat),
    {
        label("#engine:", self.0)
    }
}

impl Default for EngineId {
    fn default() -> (result: Self)
        ensures
            result.0 == 0,
    {
        EngineId(0)
    }
}

impl Replicable for EngineId {
    type Model = EngineId;

    open spec fn model(self) -> EngineId {
        self
    }

    open spec fn emit(self) -> Emitted {
        <u128 as Replicable>::emit(self.0)
    }

    open spec fn parse(prior: EngineId, bytes: Seq<u8>) -> Applied<EngineId> {
        let number = <u128 as Replicable>::parse(prior.0, bytes);
        Applied {
            model: EngineId(number.model),
            error: number.error,
            consumed: number.consumed,
        }
    }

    proof fn parse_is_within(prior: EngineId, bytes: Seq<u8>) {
        <u128 as Replicable>::parse_is_within(prior.0, bytes);
    }

    fn collect_changes(&self, buffer: &mut Buffer) -> (result: Result<(), Error>) {
        self.0.collect_changes(buffer)
    }

    fn apply_changes(&mut self, buffer: &mut Buffer) -> (result: Result<(), Error>) {
        self.0.apply_changes(buffer)
    }
}

impl DefaultReplicable for EngineId {
    open spec fn blank() -> EngineId {
        EngineId(0)
    }

    proof fn default_is_blank(value: EngineId) {
    }
}

impl LosslessReplicable for EngineId {
    open spec fn fits(self) -> bool {
        self.0 <= u64::MAX
    }

    proof fn law_round_trip(self, prior: EngineId, tail: Seq<u8>) {
        <u128 as LosslessReplicable>::law_round_trip(self.0, prior.0, tail);
    }
}

/// What packets mean, one by one.
pub open spec fn packet_views(packets: Seq<ProtocolPacketData>) -> Seq<PacketDataView> {
    packets.map_values(|packet: ProtocolPacketData| packet@)
}

/// Packets on their way to a channel of a peer.
#[derive(Debug)]
pub struct EnginePacketSender {
    pub mode: ChannelMode,
    pub sender: VecDeque<ProtocolPacketData>,
}

/// Packets on their way from a channel of a peer.
#[derive(Debug)]
pub struct EnginePacketReceiver {
    pub mode: ChannelMode,
    pub receiver: VecDeque<ProtocolPacketData>,
}

/// Packets on their way, and how.
#[verifier::ext_equal]
pub struct QueueView {
    pub mode: ChannelMode,
    pub packets: Seq<PacketDataView>,
}

impl View for EnginePacketSender {
    type V = QueueView;

    open spec fn view(&self) -> QueueView {
        QueueView { mode: self.mode, packets: packet_views(self.sender@) }
    }
}

impl View for EnginePacketReceiver {
    type V = QueueView;

    open spec fn view(&self) -> QueueView {
        QueueView { mode: self.mode, packets: packet_views(self.receiver@) }
    }
}

/// How a machine reaches a peer.
pub struct EnginePeerDescriptor {
    pub info: PeerInfo,
    /// Ways to the channels that the peer reads from.
    pub packet_senders: OrderedMap<EnginePacketSender>,
    /// Ways from the channels that the peer writes to.
    pub packet_receivers: OrderedMap<EnginePacketReceiver>,
}

/// What an [`EnginePeerDescriptor`] holds.
#[verifier::ext_equal]
pub struct DescriptorView {
    pub info: PeerInfo,
    pub senders: Seq<(u64, QueueView)>,
    pub receivers: Seq<(u64, QueueView)>,
}

impl View for EnginePeerDescriptor {
    type V = DescriptorView;

    open spec fn view(&self) -> DescriptorView {
        DescriptorView {
            info: self.info,
            senders: viewed(self.packet_senders@),
            receivers: viewed(self.packet_receivers@),
        }
    }
}

/// What frames say, one by one.
pub open spec fn frame_views(frames: Seq<RoutedFrame>) -> Seq<RoutedFrameView> {
    frames.map_values(|frame: RoutedFrame| frame@)
}

/// The way to another machine.
pub struct EngineSession {
    pub engine_id: EngineId,
    /// Frames that came from the machine.
    pub inbox: VecDeque<RoutedFrame>,
    /// Frames for the machine.
    pub outbox: VecDeque<RoutedFrame>,
    /// The machine takes no more frames.
    pub gone: bool,
}

/// What an [`EngineSession`] holds.
#[verifier::ext_equal]
pub struct SessionView {
    pub engine_id: EngineId,
    pub inbox: Seq<RoutedFrameView>,
    pub outbox: Seq<RoutedFrameView>,
    pub gone: bool,
}

impl View for EngineSession {
    type V = SessionView;

    open spec fn view(&self) -> SessionView {
        SessionView {
            engine_id: self.engine_id,
            inbox: frame_views(self.inbox@),
            outbox: frame_views(self.outbox@),
            gone: self.gone,
        }
    }
}

impl EngineSession {
    /// A way on which there is nothing.
    pub fn new(engine_id: EngineId) -> (result: Self)
        ensures
            result@ == (SessionView {
                engine_id,
                inbox: Seq::empty(),
                outbox: Seq::empty(),
                gone: false,
            }),
    {
        let result = EngineSession {
            engine_id,
            inbox: VecDeque::new(),
            outbox: VecDeque::new(),
            gone: false,
        };
        assert(result@ =~= (SessionView {
            engine_id,
            inbox: Seq::empty(),
            outbox: Seq::empty(),
            gone: false,
        }));
        result
    }

    /// Adds a frame for the machine.
    pub(crate) fn send(&mut self, frame: RoutedFrame)
        ensures
            final(self)@ == (SessionView {
                outbox: old(self)@.outbox.push(frame@),
                ..old(self)@
            }),
    {
        let ghost before = self@;
        self.outbox.push_back(frame);
        assert(self@.outbox =~= before.outbox.push(frame@));
        assert(self@.inbox =~= before.inbox);
    }

    /// Takes the first frame that came from the machine.
    fn receive(&mut self) -> (result: Option<RoutedFrame>)
        ensures
            old(self)@.inbox.len() == 0 ==> result is None && final(self)@ == old(self)@,
            old(self)@.inbox.len() > 0 ==> {
                &&& result matches Some(frame)
                &&& frame@ == old(self)@.inbox[0]
                &&& final(self)@ == (SessionView {
                    inbox: old(self)@.inbox.skip(1),
                    ..old(self)@
                })
            },
    {
        let ghost before = self@;
        let result = self.inbox.pop_front();
        assert(before.inbox.len() > 0 ==> self@.inbox =~= before.inbox.skip(1));
        assert(self@.outbox =~= before.outbox);
        result
    }
}

/// Machines that come and go.
pub enum EngineMeetingEvent {
    RegisterEngine { key: u64, session: EngineSession },
    UnregisterEngine { key: u64 },
}

/// What an [`EngineMeetingEvent`] says.
#[verifier::ext_equal]
pub enum EngineMeetingEventView {
    RegisterEngine { key: u64, session: SessionView },
    UnregisterEngine { key: u64 },
}

impl View for EngineMeetingEvent {
    type V = EngineMeetingEventView;

    open spec fn view(&self) -> EngineMeetingEventView {
        match self {
            EngineMeetingEvent::RegisterEngine {
                key,
                session,
            } => EngineMeetingEventView::RegisterEngine { key: *key, session: session@ },
            EngineMeetingEvent::UnregisterEngine {
                key,
            } => EngineMeetingEventView::UnregisterEngine { key: *key },
        }
    }
}

/// What events say, one by one.
pub open spec fn event_views(events: Seq<EngineMeetingEvent>) -> Seq<EngineMeetingEventView> {
    events.map_values(|event: EngineMeetingEvent| event@)
}

/// Which odd things are worth a warning.
#[derive(Debug, Clone, Copy, PartialEq, Eq, Structural)]
pub struct EngineMeetingConfig {
    pub warn_unhandled_control_frame: bool,
    pub warn_duplicate_peer_creation: bool,
    pub warn_unknown_peer_destruction: bool,
    pub warn_unknown_peer_packet: bool,
    pub warn_unknown_channel_packet: bool,
    pub warn_unhandled_engine_event: bool,
}

impl EngineMeetingConfig {
    pub fn disable_all_warnings(self) -> (result: Self)
        ensures
            result == (EngineMeetingConfig {
                warn_unhandled_control_frame: false,
                warn_duplicate_peer_creation: false,
                warn_unknown_peer_destruction: false,
                warn_unknown_peer_packet: false,
                warn_unknown_channel_packet: false,
                warn_unhandled_engine_event: false,
            }),
    {
        EngineMeetingConfig {
            warn_unhandled_control_frame: false,
            warn_duplicate_peer_creation: false,
            warn_unknown_peer_destruction: false,
            warn_unknown_peer_packet: false,
            warn_unknown_channel_packet: false,
            warn_unhandled_engine_event: false,
        }
    }

    pub fn enable_all_warnings(self) -> (result: Self)
        ensures
            result == (EngineMeetingConfig {
                warn_unhandled_control_frame: true,
                warn_duplicate_peer_creation: true,
                warn_unknown_peer_destruction: true,
                warn_unknown_peer_packet: true,
                warn_unknown_channel_packet: true,
                warn_unhandled_engine_event: true,
            }),
    {
        EngineMeetingConfig {
            warn_unhandled_control_frame: true,
            warn_duplicate_peer_creation: true,
            warn_unknown_peer_destruction: true,
            warn_unknown_peer_packet: true,
            warn_unknown_channel_packet: true,
            warn_unhandled_engine_event: true,
        }
    }

    pub fn warn_unhandled_control_frame(self, value: bool) -> (result: Self)
        ensures
            result == (EngineMeetingConfig { warn_unhandled_control_frame: value, ..self }),
    {
        EngineMeetingConfig { warn_unhandled_control_frame: value, ..self }
    }

    pub fn warn_duplicate_peer_creation(self, value: bool) -> (result: Self)
        ensures
            result == (EngineMeetingConfig { warn_duplicate_peer_creation: value, ..self }),
    {
        EngineMeetingConfig { warn_duplicate_peer_creation: value, ..self }
    }

    pub fn warn_unknown_peer_destruction(self, value: bool) -> (result: Self)
        ensures
            result == (EngineMeetingConfig { warn_unknown_peer_destruction: value, ..self }),
    {
        EngineMeetingConfig { warn_unknown_peer_destruction: value, ..self }
    }

    pub fn warn_unknown_peer_packet(self, value: bool) -> (result: Self)
        ensures
            result == (EngineMeetingConfig { warn_unknown_peer_packet: value, ..self }),
    {
        EngineMeetingConfig { warn_unknown_peer_packet: value, ..self }
    }

    pub fn warn_unknown_channel_packet(self, value: bool) -> (result: Self)
        ensures
            result == (EngineMeetingConfig { warn_unknown_channel_packet: value, ..self }),
    {
        EngineMeetingConfig { warn_unknown_channel_packet: value, ..self }
    }

    pub fn warn_unhandled_engine_event(self, value: bool) -> (result: Self)
        ensures
            result == (EngineMeetingConfig { warn_unhandled_engine_event: value, ..self }),
    {
        EngineMeetingConfig { warn_unhandled_engine_event: value, ..self }
    }
}

impl Default for EngineMeetingConfig {
    fn default() -> (result: Self)
        ensures
            result == (EngineMeetingConfig {
                warn_unhandled_control_frame: false,
                warn_duplicate_peer_creation: false,
                warn_unknown_peer_destruction: false,
                warn_unknown_peer_packet: false,
                warn_unknown_channel_packet: false,
                warn_unhandled_engine_event: false,
            }),
    {
        EngineMeetingConfig {
            warn_unhandled_control_frame: false,
            warn_duplicate_peer_creation: false,
            warn_unknown_peer_destruction: false,
            warn_unknown_peer_packet: false,
            warn_unknown_channel_packet: false,
            warn_unhandled_engine_event: false,
        }
    }
}

/// Odd things that happen to a meeting.
#[derive(Debug, Clone, Copy, PartialEq, Eq, Structural)]
pub enum EngineWarning {
    /// The machine under a key sent a control frame that means nothing to a meeting.
    UnhandledControlFrame(u64, ProtocolControlFrame),
    /// A peer was created that is known already.
    DuplicatePeerCreation(PeerId),
    /// A peer was destroyed that is not known.
    UnknownPeerDestruction(PeerId),
    /// The machine under a key sent a packet for a peer that is not known.
    UnknownPeerPacket(u64, PeerId),
    /// The machine under a key sent a packet for a channel that the peer does not read from.
    UnknownChannelPacket(u64, PeerId, ChannelId),
    /// The meeting told something that means nothing to the machine.
    UnhandledEngineEvent(PeerId),
}

/// The frames that introduce peers.
pub open spec fn introductions(peers: Seq<(u64, DescriptorView)>) -> Seq<RoutedFrameView> {
    Seq::new(peers.len(), |i: int| introduction(peers[i].1.info))
}

/// The frame that introduces a peer.
pub open spec fn introduction(info: PeerInfo) -> RoutedFrameView {
    RoutedFrameView::Control(ProtocolControlFrame::CreatePeer(info.peer_id, info.role_id))
}

/// The machines once some came and went. Who comes gets to know the peers.
pub open spec fn admitted(
    engines: Seq<(u64, SessionView)>,
    peers: Seq<(u64, DescriptorView)>,
    events: Seq<EngineMeetingEventView>,
) -> Seq<(u64, SessionView)>
    decreases events.len(),
{
    if events.len() == 0 {
        engines
    } else {
        let before = admitted(engines, peers, events.drop_last());
        match events.last() {
            EngineMeetingEventView::RegisterEngine { key, session } => with_value(
                before,
                key,
                SessionView { outbox: session.outbox + introductions(peers), ..session },
            ),
            EngineMeetingEventView::UnregisterEngine { key } => without_key(before, key),
        }
    }
}

/// Whether a machine that comes can be introduced to the peers.
pub open spec fn can_be_introduced(
    peers: Seq<(u64, DescriptorView)>,
    event: EngineMeetingEventView,
) -> bool {
    event matches EngineMeetingEventView::RegisterEngine { session, .. } ==> !session.gone
        || peers.len() == 0
}

/// Whether every frame that came from a machine can be forwarded to the others.
pub open spec fn all_forwarded(
    engines: Seq<(u64, SessionView)>,
    frames: Seq<(u64, RoutedFrameView)>,
) -> bool {
    forall|x: int|
        0 <= x < frames.len() ==> !refused(
            engines,
            Some((#[trigger] frames[x]).0),
            frames[x].1,
        )
}

/// Frames that came from the machine under `key`.
pub open spec fn frames_of(key: u64, inbox: Seq<RoutedFrameView>) -> Seq<(u64, RoutedFrameView)> {
    Seq::new(inbox.len(), |i: int| (key, inbox[i]))
}

/// All frames that came from machines, in the order of their keys.
pub open spec fn received(engines: Seq<(u64, SessionView)>) -> Seq<(u64, RoutedFrameView)>
    decreases engines.len(),
{
    if engines.len() == 0 {
        Seq::empty()
    } else {
        received(engines.drop_last()) + frames_of(engines.last().0, engines.last().1.inbox)
    }
}

/// The frames from other machines that the machine under `key` is to get.
pub open spec fn forwarded(
    frames: Seq<(u64, RoutedFrameView)>,
    key: u64,
    engine_id: EngineId,
) -> Seq<RoutedFrameView>
    decreases frames.len(),
{
    if frames.len() == 0 {
        Seq::empty()
    } else {
        let before = forwarded(frames.drop_last(), key, engine_id);
        if frames.last().0 != key && frames.last().1.is_for(engine_id) {
            before.push(frames.last().1)
        } else {
            before
        }
    }
}

/// What a frame tells the meeting.
pub open spec fn told_by(frame: RoutedFrameView) -> Option<EngineEventView> {
    match frame {
        RoutedFrameView::Control(ProtocolControlFrame::CreatePeer(peer_id, role_id)) => Some(
            EngineEventView::PeerJoined(peer_id, role_id),
        ),
        RoutedFrameView::Control(ProtocolControlFrame::DestroyPeer(peer_id)) => Some(
            EngineEventView::PeerLeft(peer_id),
        ),
        _ => None,
    }
}

/// What frames tell the meeting.
pub open spec fn told(frames: Seq<(u64, RoutedFrameView)>) -> Seq<EngineEventView>
    decreases frames.len(),
{
    if frames.len() == 0 {
        Seq::empty()
    } else {
        match told_by(frames.last().1) {
            Some(event) => told(frames.drop_last()).push(event),
            None => told(frames.drop_last()),
        }
    }
}

/// Whether a frame is a packet for a channel of a peer.
pub open spec fn is_packet_for(frame: RoutedFrameView, peer_id: u64, channel_id: u64) -> bool {
    frame matches RoutedFrameView::Packet(peer, channel, _) && peer.0 == peer_id && channel.0
        == channel_id
}

/// The packets among frames that are for a channel of a peer.
pub open spec fn delivered(
    frames: Seq<(u64, RoutedFrameView)>,
    peer_id: u64,
    channel_id: u64,
) -> Seq<PacketDataView>
    decreases frames.len(),
{
    if frames.len() == 0 {
        Seq::empty()
    } else {
        let before = delivered(frames.drop_last(), peer_id, channel_id);
        if is_packet_for(frames.last().1, peer_id, channel_id) {
            before.push(frames.last().1->Packet_2)
        } else {
            before
        }
    }
}

/// The ways to the channels of a peer, with packets put on them.
pub open spec fn senders_with(
    senders: Seq<(u64, QueueView)>,
    peer_id: u64,
    frames: Seq<(u64, RoutedFrameView)>,
) -> Seq<(u64, QueueView)> {
    Seq::new(
        senders.len(),
        |j: int|
            (
                senders[j].0,
                QueueView {
                    packets: senders[j].1.packets + delivered(frames, peer_id, senders[j].0),
                    ..senders[j].1
                },
            ),
    )
}

/// The peers, with packets on their way to them.
pub open spec fn peers_with(
    peers: Seq<(u64, DescriptorView)>,
    frames: Seq<(u64, RoutedFrameView)>,
) -> Seq<(u64, DescriptorView)> {
    Seq::new(
        peers.len(),
        |i: int|
            (
                peers[i].0,
                DescriptorView {
                    senders: senders_with(peers[i].1.senders, peers[i].0, frames),
                    ..peers[i].1
                },
            ),
    )
}

/// The odd thing about a frame, if there is one that is worth a warning.
pub open spec fn frame_warning(
    config: EngineMeetingConfig,
    peers: Seq<(u64, DescriptorView)>,
    key: u64,
    frame: RoutedFrameView,
) -> Option<EngineWarning> {
    match frame {
        RoutedFrameView::Control(control) => match control {
            ProtocolControlFrame::Heartbeat { .. } => if config.warn_unhandled_control_frame {
                Some(EngineWarning::UnhandledControlFrame(key, control))
            } else {
                None
            },
            _ => None,
        },
        RoutedFrameView::Packet(peer_id, channel_id, _) => match value_of(peers, peer_id.0) {
            None => if config.warn_unknown_peer_packet {
                Some(EngineWarning::UnknownPeerPacket(key, peer_id))
            } else {
                None
            },
            Some(peer) => if !has_key(peer.senders, channel_id.0)
                && config.warn_unknown_channel_packet {
                Some(EngineWarning::UnknownChannelPacket(key, peer_id, channel_id))
            } else {
                None
            },
        },
    }
}

/// The warnings that frames give rise to.
pub open spec fn frame_warnings(
    config: EngineMeetingConfig,
    peers: Seq<(u64, DescriptorView)>,
    frames: Seq<(u64, RoutedFrameView)>,
) -> Seq<EngineWarning>
    decreases frames.len(),
{
    if frames.len() == 0 {
        Seq::empty()
    } else {
        let before = frame_warnings(config, peers, frames.drop_last());
        match frame_warning(config, peers, frames.last().0, frames.last().1) {
            Some(warning) => before.push(warning),
            None => before,
        }
    }
}

/// Packets that come from a channel of a peer, as frames.
pub open spec fn packets_of(
    peer_id: PeerId,
    channel_id: ChannelId,
    packets: Seq<PacketDataView>,
) -> Seq<RoutedFrameView> {
    Seq::new(packets.len(), |i: int| RoutedFrameView::Packet(peer_id, channel_id, packets[i]))
}

/// All packets that come from channels of a peer, in the order of the channels.
pub open spec fn written(peer_id: PeerId, receivers: Seq<(u64, QueueView)>) -> Seq<RoutedFrameView>
    decreases receivers.len(),
{
    if receivers.len() == 0 {
        Seq::empty()
    } else {
        written(peer_id, receivers.drop_last()) + packets_of(
            peer_id,
            ChannelId(receivers.last().0),
            receivers.last().1.packets,
        )
    }
}

/// All packets that come from peers, in the order of the peers.
pub open spec fn all_written(peers: Seq<(u64, DescriptorView)>) -> Seq<RoutedFrameView>
    decreases peers.len(),
{
    if peers.len() == 0 {
        Seq::empty()
    } else {
        all_written(peers.drop_last()) + written(
            peers.last().1.info.peer_id,
            peers.last().1.receivers,
        )
    }
}

/// The ways from channels with no packets left on them.
pub open spec fn cleared(receivers: Seq<(u64, QueueView)>) -> Seq<(u64, QueueView)> {
    Seq::new(
        receivers.len(),
        |j: int| (receivers[j].0, QueueView { packets: Seq::empty(), ..receivers[j].1 }),
    )
}

/// The peers with no packets left on the ways from them.
pub open spec fn all_cleared(peers: Seq<(u64, DescriptorView)>) -> Seq<(u64, DescriptorView)> {
    Seq::new(
        peers.len(),
        |i: int|
            (
                peers[i].0,
                DescriptorView { receivers: cleared(peers[i].1.receivers), ..peers[i].1 },
            ),
    )
}

/// The frames that a machine is to get.
pub open spec fn addressed(frames: Seq<RoutedFrameView>, engine_id: EngineId) -> Seq<
    RoutedFrameView,
>
    decreases frames.len(),
{
    if frames.len() == 0 {
        Seq::empty()
    } else {
        let before = addressed(frames.drop_last(), engine_id);
        if frames.last().is_for(engine_id) {
            before.push(frames.last())
        } else {
            before
        }
    }
}

/// The machines, each with those of the frames that it is to get.
pub open spec fn engines_with(
    engines: Seq<(u64, SessionView)>,
    frames: Seq<RoutedFrameView>,
) -> Seq<(u64, SessionView)> {
    Seq::new(
        engines.len(),
        |k: int|
            (
                engines[k].0,
                SessionView {
                    outbox: engines[k].1.outbox + addressed(frames, engines[k].1.engine_id),
                    ..engines[k].1
                },
            ),
    )
}

/// The machines once every frame that came was forwarded.
pub open spec fn engines_served(
    engines: Seq<(u64, SessionView)>,
    frames: Seq<(u64, RoutedFrameView)>,
) -> Seq<(u64, SessionView)> {
    Seq::new(
        engines.len(),
        |k: int|
            (
                engines[k].0,
                SessionView {
                    inbox: Seq::empty(),
                    outbox: engines[k].1.outbox + forwarded(
                        frames,
                        engines[k].0,
                        engines[k].1.engine_id,
                    ),
                    ..engines[k].1
                },
            ),
    )
}

/// The peers after what a meeting told.
pub open spec fn peers_told(
    peers: Seq<(u64, DescriptorView)>,
    event: EngineEventView,
) -> Seq<(u64, DescriptorView)> {
    match event {
        EngineEventView::PeerCreated(descriptor) => if has_key(
            peers,
            descriptor.info.peer_id.0,
        ) {
            peers
        } else {
            with_value(peers, descriptor.info.peer_id.0, descriptor)
        },
        EngineEventView::PeerDestroyed(peer_id) => without_key(peers, peer_id.0),
        _ => peers,
    }
}

/// What all machines get to know of what a meeting told.
pub open spec fn announcement(
    peers: Seq<(u64, DescriptorView)>,
    event: EngineEventView,
) -> Option<RoutedFrameView> {
    match event {
        EngineEventView::PeerCreated(descriptor) => if !has_key(
            peers,
            descriptor.info.peer_id.0,
        ) && !descriptor.info.remote {
            Some(introduction(descriptor.info))
        } else {
            None
        },
        EngineEventView::PeerDestroyed(peer_id) => if has_key(peers, peer_id.0) {
            Some(RoutedFrameView::Control(ProtocolControlFrame::DestroyPeer(peer_id)))
        } else {
            None
        },
        _ => None,
    }
}

/// The odd thing about what a meeting told, if there is one that is worth a warning.
pub open spec fn event_warning(
    config: EngineMeetingConfig,
    peers: Seq<(u64, DescriptorView)>,
    event: EngineEventView,
) -> Option<EngineWarning> {
    match event {
        EngineEventView::PeerCreated(descriptor) => if has_key(
            peers,
            descriptor.info.peer_id.0,
        ) && config.warn_duplicate_peer_creation {
            Some(EngineWarning::DuplicatePeerCreation(descriptor.info.peer_id))
        } else {
            None
        },
        EngineEventView::PeerDestroyed(peer_id) => if !has_key(peers, peer_id.0)
            && config.warn_unknown_peer_destruction {
            Some(EngineWarning::UnknownPeerDestruction(peer_id))
        } else {
            None
        },
        EngineEventView::PeerJoined(peer_id, _) => if config.warn_unhandled_engine_event {
            Some(EngineWarning::UnhandledEngineEvent(peer_id))
        } else {
            None
        },
        EngineEventView::PeerLeft(peer_id) => if config.warn_unhandled_engine_event {
            Some(EngineWarning::UnhandledEngineEvent(peer_id))
        } else {
            None
        },
        EngineEventView::MeetingDestroyed => None,
    }
}

/// The peers after all that a meeting told.
pub open spec fn peers_settled(
    peers: Seq<(u64, DescriptorView)>,
    events: Seq<EngineEventView>,
) -> Seq<(u64, DescriptorView)>
    decreases events.len(),
{
    if events.len() == 0 {
        peers
    } else {
        peers_told(peers_settled(peers, events.drop_last()), events.last())
    }
}

/// What all machines get to know of all that a meeting told.
pub open spec fn announced(
    peers: Seq<(u64, DescriptorView)>,
    events: Seq<EngineEventView>,
) -> Seq<RoutedFrameView>
    decreases events.len(),
{
    if events.len() == 0 {
        Seq::empty()
    } else {
        let before = announced(peers, events.drop_last());
        match announcement(peers_settled(peers, events.drop_last()), events.last()) {
            Some(frame) => before.push(frame),
            None => before,
        }
    }
}

/// The warnings that all that a meeting told gives rise to.
pub open spec fn event_warnings(
    config: EngineMeetingConfig,
    peers: Seq<(u64, DescriptorView)>,
    events: Seq<EngineEventView>,
) -> Seq<EngineWarning>
    decreases events.len(),
{
    if events.len() == 0 {
        Seq::empty()
    } else {
        let before = event_warnings(config, peers, events.drop_last());
        match event_warning(config, peers_settled(peers, events.drop_last()), events.last()) {
            Some(warning) => before.push(warning),
            None => before,
        }
    }
}

/// Runs a meeting for this machine, and keeps other machines in touch with it.
pub struct EngineMeeting<Ch, R, S, D, F> {
    pub config: EngineMeetingConfig,
    meeting: Meeting<Ch, R, S, D, F>,
    peers: OrderedMap<EnginePeerDescriptor>,
    engines: OrderedMap<EngineSession>,
    events: VecDeque<EngineMeetingEvent>,
    warnings: Vec<EngineWarning>,
}

/// What an [`EngineMeeting`] holds.
#[verifier::ext_equal]
pub struct EngineMeetingView<Ch, R, S, D, F> {
    pub config: EngineMeetingConfig,
    pub meeting: MeetingView<Ch, R, S, D, F>,
    pub peers: Seq<(u64, DescriptorView)>,
    pub engines: Seq<(u64, SessionView)>,
    /// Machines that wait to come or go.
    pub events: Seq<EngineMeetingEventView>,
    pub warnings: Seq<EngineWarning>,
}

impl<Ch, R, S, D, F> View for EngineMeeting<Ch, R, S, D, F> {
    type V = EngineMeetingView<Ch, R, S, D, F>;

    closed spec fn view(&self) -> EngineMeetingView<Ch, R, S, D, F> {
        EngineMeetingView {
            config: self.config,
            meeting: self.meeting@,
            peers: viewed(self.peers@),
            engines: viewed(self.engines@),
            events: event_views(self.events@),
            warnings: self.warnings@,
        }
    }
}

impl<Ch, R, S, D, F> EngineMeetingView<Ch, R, S, D, F> {
    /// Once machines came and went.
    pub open spec fn after_admission(self) -> Self {
        EngineMeetingView {
            engines: admitted(self.engines, self.peers, self.events),
            events: Seq::empty(),
            ..self
        }
    }

    /// Whether the first machine that comes, is to be introduced to peers and takes no frames
    /// stands at `at` among those that come and go.
    pub open spec fn turned_away_at(self, at: int) -> bool {
        &&& 0 <= at < self.events.len()
        &&& !can_be_introduced(self.peers, self.events[at])
        &&& forall|i: int|
            0 <= i < at ==> can_be_introduced(self.peers, #[trigger] self.events[i])
    }

    /// Whether letting machines come and go can leave `after`, or fail with `error`: it fails at
    /// a machine that takes no frames.
    pub open spec fn admits(self, after: Self, error: Option<Error>) -> bool {
        match error {
            None => {
                &&& forall|i: int|
                    0 <= i < self.events.len() ==> can_be_introduced(
                        self.peers,
                        #[trigger] self.events[i],
                    )
                &&& after == self.after_admission()
            },
            Some(reason) => {
                &&& reason == Error::ChannelClosed
                &&& exists|at: int|
                    {
                        &&& #[trigger] self.turned_away_at(at)
                        &&& after == (EngineMeetingView {
                            engines: admitted(self.engines, self.peers, self.events.take(at)),
                            events: self.events.skip(at + 1),
                            ..self
                        })
                    }
            },
        }
    }

    /// The frames from machines before one of the machine at `place`, which is behind `count`
    /// others.
    pub open spec fn taken_in(self, place: int, count: int) -> Seq<(u64, RoutedFrameView)> {
        received(self.engines.take(place)) + frames_of(
            self.engines[place].0,
            self.engines[place].1.inbox.take(count),
        )
    }

    /// While frames are being taken in: `frames` were, the machine at `place` has `count` of its
    /// frames behind it.
    pub open spec fn while_receiving(
        self,
        frames: Seq<(u64, RoutedFrameView)>,
        place: int,
        count: int,
    ) -> Self {
        EngineMeetingView {
            engines: engines_while(self.engines, frames, place, count),
            meeting: MeetingView {
                engine_in: self.meeting.engine_in + told(frames),
                ..self.meeting
            },
            peers: peers_with(self.peers, frames),
            warnings: self.warnings + frame_warnings(self.config, self.peers, frames),
            ..self
        }
    }

    /// Whether a frame of the machine at `place`, behind `count` others, is the first that cannot
    /// be forwarded.
    pub open spec fn receiving_stuck_at(self, place: int, count: int) -> bool {
        &&& 0 <= place < self.engines.len()
        &&& 0 <= count < self.engines[place].1.inbox.len()
        &&& all_forwarded(self.engines, self.taken_in(place, count))
        &&& refused(
            self.engines,
            Some(self.engines[place].0),
            self.engines[place].1.inbox[count],
        )
    }

    /// Once a frame of the machine at `place`, behind `count` others, was forwarded as far as
    /// machines take it. It is neither told nor delivered.
    pub open spec fn after_stuck_receiving(self, place: int, count: int) -> Self {
        let state = self.while_receiving(self.taken_in(place, count), place, count + 1);
        EngineMeetingView {
            engines: spread_out(
                state.engines,
                Some(self.engines[place].0),
                self.engines[place].1.inbox[count],
            ),
            ..state
        }
    }

    /// Whether taking in frames can leave `after`, or fail with `error`: it fails at the first
    /// frame that a machine does not take.
    pub open spec fn receives(self, after: Self, error: Option<Error>) -> bool {
        match error {
            None => {
                &&& all_forwarded(self.engines, received(self.engines))
                &&& after == self.after_receiving()
            },
            Some(reason) => {
                &&& reason == Error::ChannelClosed
                &&& exists|place: int, count: int|
                    {
                        &&& #[trigger] self.receiving_stuck_at(place, count)
                        &&& after == self.after_stuck_receiving(place, count)
                    }
            },
        }
    }

    /// Whether sending what peers wrote can leave `after`, or fail with `error`: it fails at the
    /// first packet that a machine does not take. Those behind it wait.
    pub open spec fn sends(self, after: Self, error: Option<Error>) -> bool {
        match error {
            None => {
                &&& all_taken(self.engines, all_written(self.peers))
                &&& after == self.after_sending()
            },
            Some(reason) => {
                &&& reason == Error::ChannelClosed
                &&& exists|peer: int, place: int, count: int|
                    {
                        &&& #[trigger] sending_stuck_at(
                            self.engines,
                            self.peers,
                            peer,
                            place,
                            count,
                        )
                        &&& after == self.after_stuck_sending(peer, place, count)
                    }
            },
        }
    }

    /// Once a packet of a peer was sent as far as machines take it, behind all before it.
    pub open spec fn after_stuck_sending(self, peer: int, place: int, count: int) -> Self {
        let peer_id = self.peers[peer].1.info.peer_id;
        let receivers = self.peers[peer].1.receivers;
        EngineMeetingView {
            engines: sent_partly(
                self.engines,
                all_written(self.peers.take(peer)) + frames_before(
                    peer_id,
                    receivers,
                    place,
                    count,
                ),
                frame_at(peer_id, receivers, place, count),
            ),
            peers: peers_left(self.peers, peer, place, count + 1),
            ..self
        }
    }

    /// Once frames from machines were forwarded, told and delivered.
    pub open spec fn after_receiving(self) -> Self {
        let frames = received(self.engines);
        EngineMeetingView {
            engines: engines_served(self.engines, frames),
            meeting: MeetingView {
                engine_in: self.meeting.engine_in + told(frames),
                ..self.meeting
            },
            peers: peers_with(self.peers, frames),
            warnings: self.warnings + frame_warnings(self.config, self.peers, frames),
            ..self
        }
    }

    /// Once packets from peers were sent to machines.
    pub open spec fn after_sending(self) -> Self {
        EngineMeetingView {
            engines: engines_with(self.engines, all_written(self.peers)),
            peers: all_cleared(self.peers),
            ..self
        }
    }

    /// Once the machine took note of the first `count` things that the meeting told.
    pub open spec fn after_settling(self, count: int) -> Self {
        let events = self.meeting.engine_out.take(count);
        EngineMeetingView {
            meeting: MeetingView {
                engine_out: self.meeting.engine_out.skip(count),
                ..self.meeting
            },
            engines: engines_with(self.engines, announced(self.peers, events)),
            peers: peers_settled(self.peers, events),
            warnings: self.warnings + event_warnings(self.config, self.peers, events),
            ..self
        }
    }

    /// What machines are to get to know of what the meeting told at `at`.
    pub open spec fn announcement_at(self, at: int) -> Option<RoutedFrameView> {
        announcement(
            peers_settled(self.peers, self.meeting.engine_out.take(at)),
            self.meeting.engine_out[at],
        )
    }

    /// Whether what the meeting told at `at` says that it is over, or cannot be told to a machine.
    pub open spec fn ends_with(self, at: int) -> bool {
        ||| self.meeting.engine_out[at] is MeetingDestroyed
        ||| self.announcement_at(at) matches Some(frame) && refused(self.engines, None, frame)
    }

    /// Whether the first of what the meeting told that says that it is over, or cannot be told to
    /// a machine, stands at `at`.
    pub open spec fn ends_at(self, at: int) -> bool {
        &&& 0 <= at < self.meeting.engine_out.len()
        &&& self.ends_with(at)
        &&& forall|i: int| 0 <= i < at ==> !(#[trigger] self.ends_with(i))
    }

    /// Once the first of what the meeting told that ends a round was taken, at `at`.
    pub open spec fn after_end(self, at: int) -> Self {
        let state = self.after_settling(at);
        EngineMeetingView {
            meeting: MeetingView {
                engine_out: self.meeting.engine_out.skip(at + 1),
                ..self.meeting
            },
            engines: match self.announcement_at(at) {
                Some(frame) => spread_out(state.engines, None, frame),
                None => state.engines,
            },
            ..state
        }
    }

    /// Whether the machine taking note of what the meeting told gives `after`, or fails with
    /// `error`: it fails when the meeting is over, or a machine cannot be told.
    pub open spec fn settled(self, after: Self, error: Option<Error>) -> bool {
        match error {
            None => {
                &&& forall|i: int|
                    0 <= i < self.meeting.engine_out.len() ==> !(#[trigger] self.ends_with(i))
                &&& after == self.after_settling(self.meeting.engine_out.len() as int)
            },
            Some(reason) => exists|at: int|
                {
                    &&& #[trigger] self.ends_at(at)
                    &&& reason == if self.meeting.engine_out[at] is MeetingDestroyed {
                        Error::MeetingDestroyed
                    } else {
                        Error::ChannelClosed
                    }
                    &&& after == self.after_end(at)
                },
        }
    }

    /// Whether a meeting that turned into `meeting` and gave `moved` can leave `after`, or fail
    /// with `error`.
    pub open spec fn concluded(
        self,
        meeting: MeetingView<Ch, R, S, D, F>,
        moved: Result<bool, Error>,
        after: Self,
        error: Option<Error>,
    ) -> bool {
        let turned = EngineMeetingView { meeting, ..self };
        match moved {
            Err(reason) => error == Some(reason) && after == turned,
            Ok(_) => turned.settled(after, error),
        }
    }
}

impl<Ch: Pump, R, S, D, F> EngineMeetingView<Ch, R, S, D, F> where
    F: Fn(PeerBuilder<Ch, R, S, D>) -> Result<PeerBuilder<Ch, R, S, D>, Error>,
 {
    /// Whether carrying packets between the channels of peers and the ways to and from them can
    /// leave `after`.
    pub open spec fn carries(self, after: Self) -> bool {
        &&& all_carried(self.peers, self.meeting, after.peers, after.meeting)
        &&& after == (EngineMeetingView { peers: after.peers, meeting: after.meeting, ..self })
    }

    /// Whether running the meeting once packets were sent, and telling machines of peers that
    /// came and went, can leave `after`, or fail with `error`. A failure before ends the round.
    pub open spec fn runs(self, earlier: Option<Error>, after: Self, error: Option<Error>) -> bool {
        match earlier {
            Some(reason) => error == Some(reason) && after == self,
            None => exists|meeting: MeetingView<Ch, R, S, D, F>, moved: Result<bool, Error>|
                {
                    &&& self.meeting.pumped_all(meeting, moved)
                    &&& #[trigger] self.concluded(meeting, moved, after, error)
                },
        }
    }

    /// Whether sending what peers wrote, running the meeting and telling machines of peers that
    /// came and went can leave `after`, or fail with `error`.
    pub open spec fn turns(self, after: Self, error: Option<Error>) -> bool {
        exists|sent: Self, earlier: Option<Error>|
            {
                &&& self.sends(sent, earlier)
                &&& #[trigger] sent.runs(earlier, after, error)
            }
    }

    /// Whether carrying packets once frames were taken in, and what follows, can leave `after`,
    /// or fail with `error`. A failure before ends the round.
    pub open spec fn carries_on(
        self,
        earlier: Option<Error>,
        after: Self,
        error: Option<Error>,
    ) -> bool {
        match earlier {
            Some(reason) => error == Some(reason) && after == self,
            None => exists|carried: Self| #[trigger]
                self.carries(carried) && carried.turns(after, error),
        }
    }

    /// Whether taking in frames once machines came and went, and what follows, can leave `after`,
    /// or fail with `error`. A failure before ends the round.
    pub open spec fn takes_in(
        self,
        earlier: Option<Error>,
        after: Self,
        error: Option<Error>,
    ) -> bool {
        match earlier {
            Some(reason) => error == Some(reason) && after == self,
            None => exists|received: Self, so_far: Option<Error>|
                {
                    &&& self.receives(received, so_far)
                    &&& #[trigger] received.carries_on(so_far, after, error)
                },
        }
    }

    /// Whether one round of work can leave `after`, or fail with `error`. What machines sent is
    /// in the channels when the meeting runs, and what channels wrote before is sent.
    pub open spec fn maintained(self, after: Self, error: Option<Error>) -> bool {
        exists|met: Self, so_far: Option<Error>|
            {
                &&& self.admits(met, so_far)
                &&& #[trigger] met.takes_in(so_far, after, error)
            }
    }
}

/// Appending frames one by one.
proof fn lemma_addressed_push(
    frames: Seq<RoutedFrameView>,
    frame: RoutedFrameView,
    engine_id: EngineId,
)
    ensures
        addressed(frames.push(frame), engine_id) == (if frame.is_for(engine_id) {
            addressed(frames, engine_id).push(frame)
        } else {
            addressed(frames, engine_id)
        }),
{
    assert(frames.push(frame).drop_last() =~= frames);
}

/// Takes all packets that come from the channels of a peer.
fn collect_packets(descriptor: &mut EnginePeerDescriptor, frames: &mut Vec<RoutedFrame>)
    ensures
        final(descriptor)@ == (DescriptorView {
            receivers: cleared(old(descriptor)@.receivers),
            ..old(descriptor)@
        }),
        frame_views(final(frames)@) == frame_views(old(frames)@) + written(
            old(descriptor)@.info.peer_id,
            old(descriptor)@.receivers,
        ),
{
    let ghost before = descriptor@;
    let ghost first = frame_views(frames@);
    let peer_id: PeerId = descriptor.info.peer_id;
    let total: usize = descriptor.packet_receivers.len();
    let mut j: usize = 0;
    assert(frame_views(frames@) =~= first + written(peer_id, before.receivers.take(0)));
    while j < total
        invariant
            j <= total,
            total == before.receivers.len(),
            total == descriptor.packet_receivers@.len(),
            peer_id == before.info.peer_id,
            descriptor.info == before.info,
            viewed(descriptor.packet_senders@) == before.senders,
            forall|k: int|
                #![trigger viewed(descriptor.packet_receivers@)[k]]
                #![trigger before.receivers[k]]
                0 <= k < j ==> viewed(descriptor.packet_receivers@)[k] == cleared(
                    before.receivers,
                )[k],
            forall|k: int|
                #![trigger viewed(descriptor.packet_receivers@)[k]]
                #![trigger before.receivers[k]]
                j <= k < total ==> viewed(descriptor.packet_receivers@)[k] == before.receivers[k],
            frame_views(frames@) == first + written(peer_id, before.receivers.take(j as int)),
        decreases total - j,
    {
        let ghost entries = descriptor.packet_receivers@;
        let ghost queue = before.receivers[j as int];
        assert(viewed(entries)[j as int] == queue);
        let channel_id = ChannelId(descriptor.packet_receivers.key(j));
        let receiver = descriptor.packet_receivers.value_mut(j);
        let ghost so_far = frame_views(frames@);
        let ghost mode = receiver.mode;
        let ghost waiting = packet_views(receiver.receiver@);
        let count: usize = receiver.receiver.len();
        let mut n: usize = 0;
        assert(waiting.skip(0) =~= waiting);
        assert(so_far + packets_of(peer_id, channel_id, waiting.take(0)) =~= so_far);
        while n < count
            invariant
                n <= count,
                count == waiting.len(),
                receiver.mode == mode,
                packet_views(receiver.receiver@) == waiting.skip(n as int),
                frame_views(frames@) == so_far + packets_of(
                    peer_id,
                    channel_id,
                    waiting.take(n as int),
                ),
            decreases count - n,
        {
            let ghost rest = receiver.receiver@;
            let ghost sent = frames@;
            assert(packet_views(rest).len() == waiting.len() - n);
            if let Some(packet) = receiver.receiver.pop_front() {
                assert(packet@ == waiting.skip(n as int)[0]);
                frames.push(RoutedFrame::Packet(peer_id, channel_id, packet));
                assert(frame_views(frames@) =~= frame_views(sent).push(
                    RoutedFrameView::Packet(peer_id, channel_id, waiting[n as int]),
                ));
            }
            assert forall|x: int| 0 <= x < receiver.receiver@.len() implies packet_views(
                receiver.receiver@,
            )[x] == #[trigger] waiting.skip(n + 1)[x] by {
                assert(packet_views(rest)[x + 1] == waiting.skip(n as int)[x + 1]);
            }
            assert(packet_views(receiver.receiver@) =~= waiting.skip(n + 1));
            n = n + 1;
            assert(frame_views(frames@) =~= so_far + packets_of(
                peer_id,
                channel_id,
                waiting.take(n as int),
            ));
        }
        assert(waiting.take(n as int) =~= waiting);
        assert(packet_views(receiver.receiver@) =~= Seq::<PacketDataView>::empty());
        assert(receiver@ =~= cleared(before.receivers)[j as int].1);
        proof {
            lemma_viewed_update(entries, j as int, *receiver);
        }
        let ghost taken = before.receivers.take(j as int);
        assert(before.receivers.take(j + 1).drop_last() =~= taken);
        j = j + 1;
        assert(frame_views(frames@) =~= first + written(peer_id, before.receivers.take(j as int)));
    }
    assert(before.receivers.take(j as int) =~= before.receivers);
    assert(viewed(descriptor.packet_receivers@) =~= cleared(before.receivers));
    assert(descriptor@ =~= (DescriptorView { receivers: cleared(before.receivers), ..before }));
}

/// Takes all packets that come from peers.
pub(crate) fn collect_all_packets(peers: &mut OrderedMap<EnginePeerDescriptor>) -> (result: Vec<RoutedFrame>)
    ensures
        viewed(final(peers)@) == all_cleared(viewed(old(peers)@)),
        frame_views(result@) == all_written(viewed(old(peers)@)),
{
    let ghost before = viewed(peers@);
    let mut frames: Vec<RoutedFrame> = Vec::new();
    let total: usize = peers.len();
    let mut i: usize = 0;
    assert(frame_views(frames@) =~= all_written(before.take(0)));
    while i < total
        invariant
            before == viewed(old(peers)@),
            i <= total,
            total == before.len(),
            total == peers@.len(),
            forall|k: int|
                #![trigger viewed(peers@)[k]]
                #![trigger before[k]]
                0 <= k < i ==> viewed(peers@)[k] == all_cleared(before)[k],
            forall|k: int|
                #![trigger viewed(peers@)[k]]
                #![trigger before[k]]
                i <= k < total ==> viewed(peers@)[k] == before[k],
            frame_views(frames@) == all_written(before.take(i as int)),
        decreases total - i,
    {
        let ghost entries = peers@;
        assert(viewed(entries)[i as int] == before[i as int]);
        let descriptor = peers.value_mut(i);
        collect_packets(descriptor, &mut frames);
        proof {
            lemma_viewed_update(entries, i as int, *descriptor);
        }
        assert(before.take(i + 1).drop_last() =~= before.take(i as int));
        i = i + 1;
    }
    assert(before.take(i as int) =~= before);
    assert(viewed(peers@) =~= all_cleared(before));
    frames
}

/// What one more frame adds.
pub(crate) proof fn lemma_one_more_frame(
    frames: Seq<(u64, RoutedFrameView)>,
    frame: (u64, RoutedFrameView),
    key: u64,
    engine_id: EngineId,
    peer_id: u64,
    channel_id: u64,
    config: EngineMeetingConfig,
    peers: Seq<(u64, DescriptorView)>,
)
    ensures
        forwarded(frames.push(frame), key, engine_id) == (if frame.0 != key && frame.1.is_for(
            engine_id,
        ) {
            forwarded(frames, key, engine_id).push(frame.1)
        } else {
            forwarded(frames, key, engine_id)
        }),
        delivered(frames.push(frame), peer_id, channel_id) == (if is_packet_for(
            frame.1,
            peer_id,
            channel_id,
        ) {
            delivered(frames, peer_id, channel_id).push(frame.1->Packet_2)
        } else {
            delivered(frames, peer_id, channel_id)
        }),
        told(frames.push(frame)) == (match told_by(frame.1) {
            Some(event) => told(frames).push(event),
            None => told(frames),
        }),
        frame_warnings(config, peers, frames.push(frame)) == (match frame_warning(
            config,
            peers,
            frame.0,
            frame.1,
        ) {
            Some(warning) => frame_warnings(config, peers, frames).push(warning),
            None => frame_warnings(config, peers, frames),
        }),
{
    assert(frames.push(frame).drop_last() =~= frames);
}

/// Putting packets on ways changes nothing about who is there.
pub(crate) proof fn lemma_peers_with(
    peers: Seq<(u64, DescriptorView)>,
    frames: Seq<(u64, RoutedFrameView)>,
    key: u64,
    frame: RoutedFrameView,
    config: EngineMeetingConfig,
)
    requires
        keys_ascend(peers),
    ensures
        frame_warning(config, peers_with(peers, frames), key, frame) == frame_warning(
            config,
            peers,
            key,
            frame,
        ),
{
    if let RoutedFrameView::Packet(peer_id, channel_id, _) = frame {
        lemma_same_keys(peers, peers_with(peers, frames), peer_id.0);
        if has_key(peers, peer_id.0) {
            let place = crate::ordered_map::place_of(peers, peer_id.0);
            crate::ordered_map::lemma_place(peers, peer_id.0);
            lemma_same_keys(
                peers[place].1.senders,
                peers_with(peers, frames)[place].1.senders,
                channel_id.0,
            );
        }
    }
}

/// What a single frame delivers.
proof fn lemma_single_delivered(frame: (u64, RoutedFrameView), peer_id: u64, channel_id: u64)
    ensures
        delivered(seq![frame], peer_id, channel_id) == (if is_packet_for(
            frame.1,
            peer_id,
            channel_id,
        ) {
            seq![frame.1->Packet_2]
        } else {
            Seq::<PacketDataView>::empty()
        }),
{
    reveal_with_fuel(delivered, 2);
    assert(seq![frame].drop_last() =~= Seq::<(u64, RoutedFrameView)>::empty());
    assert(delivered(seq![frame], peer_id, channel_id) =~= (if is_packet_for(
        frame.1,
        peer_id,
        channel_id,
    ) {
        seq![frame.1->Packet_2]
    } else {
        Seq::<PacketDataView>::empty()
    }));
}

/// One more frame, on top of others.
pub(crate) proof fn lemma_peers_with_push(
    peers: Seq<(u64, DescriptorView)>,
    frames: Seq<(u64, RoutedFrameView)>,
    frame: (u64, RoutedFrameView),
)
    ensures
        peers_with(peers_with(peers, frames), seq![frame]) == peers_with(
            peers,
            frames.push(frame),
        ),
{
    let one = peers_with(peers_with(peers, frames), seq![frame]);
    let all = peers_with(peers, frames.push(frame));
    assert forall|i: int| 0 <= i < peers.len() implies #[trigger] one[i] == all[i] by {
        let senders = peers[i].1.senders;
        assert forall|j: int| 0 <= j < senders.len() implies #[trigger] one[i].1.senders[j]
            == all[i].1.senders[j] by {
            let peer = peers[i].0;
            let channel = senders[j].0;
            assert(frames.push(frame).drop_last() =~= frames);
            lemma_single_delivered(frame, peer, channel);
            assert(one[i].1.senders[j].1.packets =~= all[i].1.senders[j].1.packets);
        }
        assert(one[i].1.senders =~= all[i].1.senders);
    }
    assert(one =~= all);
}

/// The machines while frames are being forwarded: those before `place` have none left, and the
/// one at `place` has `count` of its frames behind it.
pub open spec fn engines_while(
    engines: Seq<(u64, SessionView)>,
    frames: Seq<(u64, RoutedFrameView)>,
    place: int,
    count: int,
) -> Seq<(u64, SessionView)> {
    Seq::new(
        engines.len(),
        |k: int|
            (
                engines[k].0,
                SessionView {
                    inbox: if k < place {
                        Seq::empty()
                    } else if k == place {
                        engines[k].1.inbox.skip(count)
                    } else {
                        engines[k].1.inbox
                    },
                    outbox: engines[k].1.outbox + forwarded(
                        frames,
                        engines[k].0,
                        engines[k].1.engine_id,
                    ),
                    ..engines[k].1
                },
            ),
    )
}

impl<Ch, R, S, D, F> EngineMeetingView<Ch, R, S, D, F> {
    /// Once a frame of the machine under `key` was forwarded, told and delivered.
    spec fn after_frame(self, key: u64, frame: RoutedFrameView) -> Self {
        EngineMeetingView {
            engines: Seq::new(
                self.engines.len(),
                |k: int|
                    (
                        self.engines[k].0,
                        if self.engines[k].0 != key && frame.is_for(self.engines[k].1.engine_id) {
                            SessionView {
                                outbox: self.engines[k].1.outbox.push(frame),
                                ..self.engines[k].1
                            }
                        } else {
                            self.engines[k].1
                        },
                    ),
            ),
            meeting: MeetingView {
                engine_in: match told_by(frame) {
                    Some(event) => self.meeting.engine_in.push(event),
                    None => self.meeting.engine_in,
                },
                ..self.meeting
            },
            peers: peers_with(self.peers, seq![(key, frame)]),
            warnings: match frame_warning(self.config, self.peers, key, frame) {
                Some(warning) => self.warnings.push(warning),
                None => self.warnings,
            },
            ..self
        }
    }
}

/// Puts a packet on its way to a channel of a peer, if there is one, and says which of the two
/// is there.
pub(crate) fn deliver(
    peers: &mut OrderedMap<EnginePeerDescriptor>,
    key: u64,
    peer_id: PeerId,
    channel_id: ChannelId,
    packet: ProtocolPacketData,
) -> (result: (bool, bool))
    ensures
        viewed(final(peers)@) == peers_with(
            viewed(old(peers)@),
            seq![(key, RoutedFrameView::Packet(peer_id, channel_id, packet@))],
        ),
        result.0 == has_key(viewed(old(peers)@), peer_id.0),
        result.0 ==> result.1 == has_key(
            value_of(viewed(old(peers)@), peer_id.0)->Some_0.senders,
            channel_id.0,
        ),
{
    let ghost before = viewed(peers@);
    let ghost entries = peers@;
    let ghost frame = (key, RoutedFrameView::Packet(peer_id, channel_id, packet@));
    let ghost after = peers_with(before, seq![frame]);
    proof {
        lemma_same_keys(entries, before, peer_id.0);
    }
    let (place, found): (usize, bool) = peers.find(peer_id.0);
    proof {
        assert forall|i: int| 0 <= i < before.len() && before[i].0 != peer_id.0 implies before[i]
            == #[trigger] after[i] by {
            assert forall|j: int| 0 <= j < before[i].1.senders.len() implies before[i].1.senders[j]
                == #[trigger] after[i].1.senders[j] by {
                lemma_single_delivered(frame, before[i].0, before[i].1.senders[j].0);
                assert(before[i].1.senders[j].1.packets =~= after[i].1.senders[j].1.packets);
            }
            assert(before[i].1.senders =~= after[i].1.senders);
        }
    }
    if !found {
        assert forall|i: int| 0 <= i < before.len() implies before[i] == #[trigger] after[i] by {
            assert(entries[i].0 != peer_id.0);
        }
        assert(before =~= after);
        return (false, false);
    }
    assert(value_of(before, peer_id.0) == Some(before[place as int].1));
    let ghost old_senders = entries[place as int].1.packet_senders@;
    let ghost senders = viewed(old_senders);
    let descriptor = peers.value_mut(place);
    let ghost receivers = viewed(descriptor.packet_receivers@);
    proof {
        lemma_same_keys(old_senders, senders, channel_id.0);
    }
    let (at, known): (usize, bool) = descriptor.packet_senders.find(channel_id.0);
    if known {
        let sender = descriptor.packet_senders.value_mut(at);
        let ghost queue = sender.sender@;
        sender.sender.push_back(packet);
        assert(packet_views(sender.sender@) =~= packet_views(queue).push(packet@));
        proof {
            lemma_viewed_update(old_senders, at as int, *sender);
        }
    }
    assert(before[place as int].0 == peer_id.0);
    assert forall|j: int| 0 <= j < senders.len() implies #[trigger] viewed(
        descriptor.packet_senders@,
    )[j] == after[place as int].1.senders[j] by {
        if known {
            assert(j != at ==> old_senders[j].0 != channel_id.0);
        } else {
            assert(old_senders[j].0 != channel_id.0);
        }
        lemma_single_delivered(frame, peer_id.0, senders[j].0);
        assert(viewed(descriptor.packet_senders@)[j].1.packets
            =~= after[place as int].1.senders[j].1.packets);
    }
    assert(viewed(descriptor.packet_senders@) =~= after[place as int].1.senders);
    assert(descriptor@ =~= after[place as int].1);
    proof {
        lemma_viewed_update(entries, place as int, *descriptor);
    }
    assert forall|i: int| 0 <= i < before.len() implies #[trigger] viewed(peers@)[i]
        == after[i] by {
        if i != place {
            assert(entries[i].0 != entries[place as int].0);
        }
    }
    assert(viewed(peers@) =~= after);
    (true, known)
}

impl<Ch: Pump, R, S, D, F> EngineMeeting<Ch, R, S, D, F> where
    F: Fn(PeerBuilder<Ch, R, S, D>) -> Result<PeerBuilder<Ch, R, S, D>, Error>,
 {
    /// A meeting without peers, on a machine that knows no other.
    pub fn make(name: String, config: EngineMeetingConfig, factory: PeerFactory<F, D>) -> (result:
        Self)
        ensures
            result@ == (EngineMeetingView::<Ch, R, S, D, F> {
                config,
                meeting: MeetingView {
                    factory: factory@,
                    engine_in: Seq::empty(),
                    engine_out: Seq::empty(),
                    user_in: Seq::empty(),
                    user_out: Seq::empty(),
                    engine_gone: false,
                    user_gone: false,
                    peers: Seq::empty(),
                    name: name@,
                },
                peers: Seq::empty(),
                engines: Seq::empty(),
                events: Seq::empty(),
                warnings: Seq::empty(),
            }),
    {
        let result = EngineMeeting {
            config,
            meeting: Meeting::new(factory, name),
            peers: OrderedMap::new(),
            engines: OrderedMap::new(),
            events: VecDeque::new(),
            warnings: Vec::new(),
        };
        assert(result@.peers =~= Seq::<(u64, DescriptorView)>::empty());
        assert(result@.engines =~= Seq::<(u64, SessionView)>::empty());
        assert(result@.events =~= Seq::<EngineMeetingEventView>::empty());
        result
    }

    /// Adds a machine that comes or goes.
    pub fn push_event(&mut self, event: EngineMeetingEvent)
        ensures
            final(self)@ == (EngineMeetingView {
                events: old(self)@.events.push(event@),
                ..old(self)@
            }),
    {
        let ghost before = self@;
        self.events.push_back(event);
        assert(self@.events =~= before.events.push(event@));
    }

    /// Lets machines come and go, up to the first that takes no frames and is to get some.
    fn welcome(&mut self) -> (result: Result<(), Error>)
        ensures
            old(self)@.admits(final(self)@, failure(result)),
    {
        let ghost before = self@;
        let total: usize = self.events.len();
        let mut i: usize = 0;
        assert(before.events.skip(0) =~= before.events);
        assert(before.events.take(0) =~= Seq::<EngineMeetingEventView>::empty());
        while i < total
            invariant
                before == old(self)@,
                i <= total,
                total == before.events.len(),
                forall|k: int|
                    0 <= k < i ==> can_be_introduced(before.peers, #[trigger] before.events[k]),
                self@ == (EngineMeetingView {
                    engines: admitted(before.engines, before.peers, before.events.take(i as int)),
                    events: before.events.skip(i as int),
                    ..before
                }),
            decreases total - i,
        {
            let ghost between = self@;
            let ghost waiting = self.events@;
            assert(between.events.len() == total - i);
            if let Some(event) = self.events.pop_front() {
                assert(event@ == between.events[0]);
                assert(event@ == before.events[i as int]);
                assert(before.events.take(i + 1).drop_last() =~= before.events.take(i as int));
                match event {
                    EngineMeetingEvent::RegisterEngine { key, mut session } => {
                        if session.gone && self.peers.len() > 0 {
                            assert(before.turned_away_at(i as int));
                            assert(self.events@ =~= waiting.skip(1));
                            assert(self@.events =~= between.events.skip(1));
                            assert(self@.events =~= before.events.skip(i + 1));
                            assert(self@ =~= (EngineMeetingView {
                                engines: admitted(
                                    before.engines,
                                    before.peers,
                                    before.events.take(i as int),
                                ),
                                events: before.events.skip(i + 1),
                                ..before
                            }));
                            return Err(Error::ChannelClosed);
                        }
                        self.introduce_peers(&mut session);
                        let ghost engines = self.engines@;
                        let known: usize = self.engines.len();
                        proof {
                            lemma_viewed(engines, key, session);
                        }
                        self.engines.insert(key, session);
                    },
                    EngineMeetingEvent::UnregisterEngine { key } => {
                        let ghost engines = self.engines@;
                        let known: usize = self.engines.len();
                        let removed = self.engines.remove(key);
                        proof {
                            lemma_same_keys(engines, viewed(engines), key);
                            if let Some(session) = removed {
                                lemma_viewed(engines, key, session);
                            }
                        }
                    },
                }
                assert(self.events@ =~= waiting.skip(1));
                assert(self@.events =~= between.events.skip(1));
                assert(self@.events =~= before.events.skip(i + 1));
            }
            i = i + 1;
            assert(self@ =~= (EngineMeetingView {
                engines: admitted(before.engines, before.peers, before.events.take(i as int)),
                events: before.events.skip(i as int),
                ..before
            }));
        }
        assert(before.events.take(i as int) =~= before.events);
        assert(before.events.skip(i as int) =~= Seq::<EngineMeetingEventView>::empty());
        Ok(())
    }

    /// Introduces all peers to a machine.
    fn introduce_peers(&self, session: &mut EngineSession)
        ensures
            final(session)@ == (SessionView {
                outbox: old(session)@.outbox + introductions(self@.peers),
                ..old(session)@
            }),
    {
        let ghost before = session@;
        let ghost frames = introductions(self@.peers);
        let total: usize = self.peers.len();
        let mut i: usize = 0;
        assert(before.outbox + frames.take(0) =~= before.outbox);
        while i < total
            invariant
                i <= total,
                total == self.peers@.len(),
                frames == introductions(self@.peers),
                frames.len() == total,
                session@ == (SessionView { outbox: before.outbox + frames.take(i as int), ..before }),
            decreases total - i,
        {
            let info: PeerInfo = self.peers.value(i).info;
            assert(frames[i as int] == introduction(info));
            session.send(
                RoutedFrame::Control(ProtocolControlFrame::CreatePeer(info.peer_id, info.role_id)),
            );
            i = i + 1;
            assert(before.outbox + frames.take(i as int) =~= (before.outbox + frames.take(
                i - 1,
            )).push(frames[i - 1]));
        }
        assert(frames.take(i as int) =~= frames);
    }

    /// Forwards a frame of the machine under `key`, tells the meeting about it, and delivers it.
    /// Says whether it could be forwarded: if not, that is all.
    fn route(&mut self, key: u64, frame: RoutedFrame) -> (result: bool)
        ensures
            result == !refused(old(self)@.engines, Some(key), frame@),
            final(self)@ == (if result {
                old(self)@.after_frame(key, frame@)
            } else {
                EngineMeetingView {
                    engines: spread_out(old(self)@.engines, Some(key), frame@),
                    ..old(self)@
                }
            }),
    {
        let ghost before = self@;
        let ghost said = frame@;
        let ghost after = before.after_frame(key, said);
        if !spread(&mut self.engines, Some(key), &frame) {
            assert(self@ =~= (EngineMeetingView {
                engines: spread_out(before.engines, Some(key), said),
                ..before
            }));
            return false;
        }
        proof {
            lemma_spread_out(before.engines, Some(key), said);
        }
        assert(viewed(self.engines@) =~= after.engines);
        match frame {
            RoutedFrame::Control(control) => {
                assert(peers_with(before.peers, seq![(key, said)]) =~= before.peers) by {
                    lemma_control_changes_no_peer(before.peers, key, control);
                }
                match control {
                    ProtocolControlFrame::CreatePeer(peer_id, role_id) => {
                        self.meeting.push_engine_event(
                            MeetingEngineEvent::PeerJoined(peer_id, role_id),
                        );
                    },
                    ProtocolControlFrame::DestroyPeer(peer_id) => {
                        self.meeting.push_engine_event(MeetingEngineEvent::PeerLeft(peer_id));
                    },
                    ProtocolControlFrame::Heartbeat { .. } => {
                        if self.config.warn_unhandled_control_frame {
                            self.warnings.push(
                                EngineWarning::UnhandledControlFrame(key, control),
                            );
                        }
                    },
                }
            },
            RoutedFrame::Packet(peer_id, channel_id, packet) => {
                let (peer_known, channel_known): (bool, bool) = deliver(
                    &mut self.peers,
                    key,
                    peer_id,
                    channel_id,
                    packet,
                );
                if !peer_known {
                    if self.config.warn_unknown_peer_packet {
                        self.warnings.push(EngineWarning::UnknownPeerPacket(key, peer_id));
                    }
                } else if !channel_known {
                    if self.config.warn_unknown_channel_packet {
                        self.warnings.push(
                            EngineWarning::UnknownChannelPacket(key, peer_id, channel_id),
                        );
                    }
                }
            },
        }
        assert(self@ =~= after);
        true
    }

    /// Takes in all frames that came from machines, up to the first that cannot be forwarded.
    fn receive(&mut self) -> (result: Result<(), Error>)
        ensures
            old(self)@.receives(final(self)@, failure(result)),
    {
        let ghost before = self@;
        let ghost engines = before.engines;
        let ghost mut done: Seq<(u64, RoutedFrameView)> = Seq::empty();
        let total: usize = self.engines.len();
        let known: usize = self.peers.len();
        proof {
            lemma_same_keys(self.peers@, before.peers, 0);
        }
        let mut i: usize = 0;
        proof {
            lemma_nothing_received(before);
        }
        assert(done =~= received(engines.take(0)));
        while i < total
            invariant
                before == old(self)@,
                engines == before.engines,
                keys_ascend(before.peers),
                i <= total,
                total == engines.len(),
                self@ == before.while_receiving(done, i as int, 0),
                done == received(engines.take(i as int)),
                all_forwarded(engines, done),
            decreases total - i,
        {
            assert(self.engines@.len() == total) by {
                assert(self@.engines.len() == self.engines@.len());
                assert(engines_while(engines, done, i as int, 0).len() == total);
            }
            let key: u64 = self.engines.key(i);
            assert(self@.engines[i as int] == engines_while(engines, done, i as int, 0)[i as int]);
            assert(key == engines[i as int].0);
            let ghost inbox = engines[i as int].1.inbox;
            let ghost earlier = done;
            let count: usize = self.engines.value(i).inbox.len();
            assert(inbox.skip(0) =~= inbox);
            assert(count == inbox.len());
            let mut n: usize = 0;
            assert(earlier + frames_of(key, inbox.take(0)) =~= earlier);
            while n < count
                invariant
                    before == old(self)@,
                    engines == before.engines,
                    keys_ascend(before.peers),
                    i < total,
                    total == engines.len(),
                    n <= count,
                    count == inbox.len(),
                    inbox == engines[i as int].1.inbox,
                    key == engines[i as int].0,
                    self@ == before.while_receiving(done, i as int, n as int),
                    earlier == received(engines.take(i as int)),
                    done == earlier + frames_of(key, inbox.take(n as int)),
                    all_forwarded(engines, done),
                decreases count - n,
            {
                let ghost state = self@;
                let ghost entries = self.engines@;
                assert(entries.len() == total) by {
                    assert(state.engines.len() == entries.len());
                    assert(engines_while(engines, done, i as int, n as int).len() == total);
                }
                assert(viewed(entries)[i as int] == engines_while(
                    engines,
                    done,
                    i as int,
                    n as int,
                )[i as int]);
                let session = self.engines.value_mut(i);
                let received = session.receive();
                proof {
                    lemma_viewed_update(entries, i as int, *session);
                }
                if let Some(frame) = received {
                    assert(frame@ == inbox[n as int]);
                    let ghost taken = self@;
                    let ghost next = (key, frame@);
                    proof {
                        lemma_frame_taken(before, done, i as int, n as int, state, taken);
                        assert(same_machines(engines, taken.engines));
                        lemma_same_machines(engines, taken.engines, Some(key), frame@);
                    }
                    if !self.route(key, frame) {
                        assert(before.taken_in(i as int, n as int) == done);
                        assert(before.receiving_stuck_at(i as int, n as int));
                        assert(self@ =~= before.after_stuck_receiving(i as int, n as int));
                        return Err(Error::ChannelClosed);
                    }
                    proof {
                        done = done.push(next);
                    }
                }
                n = n + 1;
                assert(done =~= earlier + frames_of(key, inbox.take(n as int)));
            }
            assert(inbox.take(n as int) =~= inbox);
            assert(engines.take(i + 1).drop_last() =~= engines.take(i as int));
            proof {
                lemma_inbox_emptied(before, done, i as int);
            }
            i = i + 1;
        }
        assert(engines.take(i as int) =~= engines);
        proof {
            lemma_all_received(before, done);
        }
        Ok(())
    }

    /// Takes note of what the meeting told.
    fn settle(&mut self) -> (result: Result<(), Error>)
        ensures
            old(self)@.settled(final(self)@, failure(result)),
    {
        let ghost before = self@;
        let ghost events = before.meeting.engine_out;
        let ghost mut i: int = 0;
        proof {
            lemma_nothing_settled(before);
        }
        loop
            invariant
                before == old(self)@,
                events == before.meeting.engine_out,
                0 <= i <= events.len(),
                forall|k: int| 0 <= k < i ==> !(#[trigger] before.ends_with(k)),
                self@ == before.after_settling(i),
            decreases events.len() - i,
        {
            let ghost state = self@;
            assert(state.meeting.engine_out == events.skip(i));
            match self.meeting.take_engine_event() {
                None => {
                    assert(i == events.len());
                    return Ok(());
                },
                Some(event) => {
                    assert(event@ == events[i]);
                    assert(self@.meeting.engine_out =~= events.skip(i + 1));
                    if let MeetingEngineEvent::MeetingDestroyed = event {
                        assert(before.ends_with(i));
                        assert(before.ends_at(i));
                        assert(self@ =~= before.after_end(i));
                        return Err(Error::MeetingDestroyed);
                    }
                    let ghost taken = self@;
                    proof {
                        lemma_one_more_settled(before, i, taken);
                        if let Some(frame) = before.announcement_at(i) {
                            assert(same_machines(before.engines, taken.engines));
                            lemma_same_machines(before.engines, taken.engines, None, frame);
                        }
                    }
                    if !self.take_note(event) {
                        assert(before.ends_with(i));
                        assert(before.ends_at(i));
                        assert(self@ =~= before.after_end(i));
                        return Err(Error::ChannelClosed);
                    }
                    proof {
                        assert(!before.ends_with(i));
                        i = i + 1;
                    }
                },
            }
        }
    }

    /// Takes note of one thing that the meeting told. Says whether all machines could be told:
    /// if not, nothing else comes of it.
    fn take_note(&mut self, event: MeetingEngineEvent) -> (result: bool)
        ensures
            result == !(announcement(old(self)@.peers, event@) matches Some(frame) && refused(
                old(self)@.engines,
                None,
                frame,
            )),
            final(self)@ == (if result {
                EngineMeetingView {
                    engines: match announcement(old(self)@.peers, event@) {
                        Some(frame) => engines_with(old(self)@.engines, seq![frame]),
                        None => old(self)@.engines,
                    },
                    peers: peers_told(old(self)@.peers, event@),
                    warnings: match event_warning(old(self)@.config, old(self)@.peers, event@) {
                        Some(warning) => old(self)@.warnings.push(warning),
                        None => old(self)@.warnings,
                    },
                    ..old(self)@
                }
            } else {
                EngineMeetingView {
                    engines: spread_out(
                        old(self)@.engines,
                        None,
                        announcement(old(self)@.peers, event@)->Some_0,
                    ),
                    ..old(self)@
                }
            }),
    {
        let ghost before = self@;
        let known: usize = self.peers.len();
        match event {
            MeetingEngineEvent::MeetingDestroyed => {},
            MeetingEngineEvent::PeerCreated(descriptor) => {
                let info: PeerInfo = descriptor.info;
                proof {
                    lemma_viewed(self.peers@, info.peer_id.0, descriptor);
                }
                if !self.peers.contains_key(info.peer_id.0) {
                    if !info.remote {
                        let frame = RoutedFrame::Control(
                            ProtocolControlFrame::CreatePeer(info.peer_id, info.role_id),
                        );
                        if !spread(&mut self.engines, None, &frame) {
                            assert(self@ =~= (EngineMeetingView {
                                engines: spread_out(before.engines, None, frame@),
                                ..before
                            }));
                            return false;
                        }
                        proof {
                            lemma_spread_out(before.engines, None, frame@);
                        }
                    }
                    self.peers.insert(info.peer_id.0, descriptor);
                } else if self.config.warn_duplicate_peer_creation {
                    self.warnings.push(EngineWarning::DuplicatePeerCreation(info.peer_id));
                }
            },
            MeetingEngineEvent::PeerDestroyed(peer_id) => {
                let ghost peers = self.peers@;
                proof {
                    lemma_same_keys(peers, viewed(peers), peer_id.0);
                }
                if self.peers.contains_key(peer_id.0) {
                    let frame = RoutedFrame::Control(ProtocolControlFrame::DestroyPeer(peer_id));
                    if !spread(&mut self.engines, None, &frame) {
                        assert(self@ =~= (EngineMeetingView {
                            engines: spread_out(before.engines, None, frame@),
                            ..before
                        }));
                        return false;
                    }
                    proof {
                        lemma_spread_out(before.engines, None, frame@);
                    }
                    let removed = self.peers.remove(peer_id.0);
                    proof {
                        if let Some(descriptor) = removed {
                            lemma_viewed(peers, peer_id.0, descriptor);
                        }
                    }
                } else if self.config.warn_unknown_peer_destruction {
                    self.warnings.push(EngineWarning::UnknownPeerDestruction(peer_id));
                }
            },
            MeetingEngineEvent::PeerJoined(peer_id, _) => {
                if self.config.warn_unhandled_engine_event {
                    self.warnings.push(EngineWarning::UnhandledEngineEvent(peer_id));
                }
            },
            MeetingEngineEvent::PeerLeft(peer_id) => {
                if self.config.warn_unhandled_engine_event {
                    self.warnings.push(EngineWarning::UnhandledEngineEvent(peer_id));
                }
            },
        }
        assert(self@ =~= (EngineMeetingView {
            engines: match announcement(before.peers, event@) {
                Some(frame) => engines_with(before.engines, seq![frame]),
                None => before.engines,
            },
            peers: peers_told(before.peers, event@),
            warnings: match event_warning(before.config, before.peers, event@) {
                Some(warning) => before.warnings.push(warning),
                None => before.warnings,
            },
            ..before
        }));
        true
    }

    /// Carries packets between the channels of all peers and the ways to and from them.
    pub fn carry(&mut self)
        ensures
            old(self)@.carries(final(self)@),
    {
        carry_all(&mut self.peers, &mut self.meeting);
    }

    /// One round of work: lets machines come and go, takes in what machines sent, carries packets
    /// to and from channels, sends machines what peers wrote, runs the meeting, and tells machines
    /// of peers that came and went.
    pub fn maintain(&mut self) -> (result: Result<(), Error>)
        requires
            takes_every_builder::<Ch, R, S, D, F>(old(self)@.meeting.factory),
        ensures
            old(self)@.maintained(final(self)@, failure(result)),
    {
        let ghost before = self@;
        let came: Result<(), Error> = self.welcome();
        let ghost met = self@;
        if let Err(error) = came {
            assert(met.takes_in(Some(error), self@, Some(error)));
            return Err(error);
        }
        let taken: Result<(), Error> = self.receive();
        let ghost received = self@;
        if let Err(error) = taken {
            assert(received.carries_on(Some(error), self@, Some(error)));
            assert(met.takes_in(None, self@, Some(error)));
            return Err(error);
        }
        self.carry();
        let result = self.turn();
        assert(received.carries_on(None, self@, failure(result)));
        assert(met.takes_in(None, self@, failure(result)));
        result
    }

    /// Sends machines what peers wrote, runs the meeting, and tells machines of peers that came
    /// and went.
    fn turn(&mut self) -> (result: Result<(), Error>)
        requires
            takes_every_builder::<Ch, R, S, D, F>(old(self)@.meeting.factory),
        ensures
            old(self)@.turns(final(self)@, failure(result)),
    {
        let ghost served = self@;
        if !send_all(&mut self.peers, &mut self.engines) {
            let ghost ready = self@;
            proof {
                let (peer, place, count) = choose|peer: int, place: int, count: int|
                    {
                        &&& #[trigger] sending_stuck_at(
                            served.engines,
                            served.peers,
                            peer,
                            place,
                            count,
                        )
                        &&& viewed(self.peers@) == peers_left(
                            served.peers,
                            peer,
                            place,
                            count + 1,
                        )
                        &&& viewed(self.engines@) == sent_partly(
                            served.engines,
                            all_written(served.peers.take(peer)) + frames_before(
                                served.peers[peer].1.info.peer_id,
                                served.peers[peer].1.receivers,
                                place,
                                count,
                            ),
                            frame_at(
                                served.peers[peer].1.info.peer_id,
                                served.peers[peer].1.receivers,
                                place,
                                count,
                            ),
                        )
                    };
                assert(ready =~= served.after_stuck_sending(peer, place, count));
                assert(served.sends(ready, Some(Error::ChannelClosed)));
                assert(ready.runs(
                    Some(Error::ChannelClosed),
                    self@,
                    Some(Error::ChannelClosed),
                ));
            }
            return Err(Error::ChannelClosed);
        }
        let ghost ready = self@;
        assert(ready =~= served.after_sending());
        assert(served.sends(ready, None));
        let moved: Result<bool, Error> = self.meeting.pump_all();
        let ghost turned = self@;
        assert(turned =~= (EngineMeetingView { meeting: turned.meeting, ..ready }));
        assert(ready.meeting.pumped_all(turned.meeting, moved));
        match moved {
            Err(error) => {
                assert(ready.concluded(turned.meeting, moved, self@, Some(error)));
                assert(ready.runs(None, self@, Some(error)));
                Err(error)
            },
            Ok(_) => {
                let result = self.settle();
                assert(ready.concluded(turned.meeting, moved, self@, failure(result)));
                assert(ready.runs(None, self@, failure(result)));
                result
            },
        }
    }
}

pub(crate) proof fn lemma_control_changes_no_peer(
    peers: Seq<(u64, DescriptorView)>,
    key: u64,
    control: ProtocolControlFrame,
)
    ensures
        peers_with(peers, seq![(key, RoutedFrameView::Control(control))]) == peers,
{
    let frames = seq![(key, RoutedFrameView::Control(control))];
    let after = peers_with(peers, frames);
    assert forall|i: int| 0 <= i < peers.len() implies #[trigger] after[i] == peers[i] by {
        assert forall|j: int| 0 <= j < peers[i].1.senders.len() implies #[trigger] after[i].1.senders[j]
            == peers[i].1.senders[j] by {
            lemma_single_delivered(frames[0], peers[i].0, peers[i].1.senders[j].0);
            assert(after[i].1.senders[j].1.packets =~= peers[i].1.senders[j].1.packets);
        }
        assert(after[i].1.senders =~= peers[i].1.senders);
    }
    assert(after =~= peers);
}

proof fn lemma_nothing_received<Ch, R, S, D, F>(state: EngineMeetingView<Ch, R, S, D, F>)
    ensures
        state.while_receiving(Seq::empty(), 0, 0) == state,
{
    let none = Seq::<(u64, RoutedFrameView)>::empty();
    let after = state.while_receiving(none, 0, 0);
    assert forall|k: int| 0 <= k < state.engines.len() implies #[trigger] after.engines[k]
        == state.engines[k] by {
        assert(after.engines[k].1 =~= state.engines[k].1);
    }
    assert(after.engines =~= state.engines);
    assert forall|i: int| 0 <= i < state.peers.len() implies #[trigger] after.peers[i]
        == state.peers[i] by {
        assert forall|j: int| 0 <= j < state.peers[i].1.senders.len() implies #[trigger] after.peers[i].1.senders[j]
            == state.peers[i].1.senders[j] by {
            assert(after.peers[i].1.senders[j].1.packets
                =~= state.peers[i].1.senders[j].1.packets);
        }
        assert(after.peers[i].1.senders =~= state.peers[i].1.senders);
    }
    assert(after.peers =~= state.peers);
    assert(after.meeting.engine_in =~= state.meeting.engine_in);
    assert(after.warnings =~= state.warnings);
}

proof fn lemma_frame_taken<Ch, R, S, D, F>(
    before: EngineMeetingView<Ch, R, S, D, F>,
    done: Seq<(u64, RoutedFrameView)>,
    place: int,
    count: int,
    state: EngineMeetingView<Ch, R, S, D, F>,
    taken: EngineMeetingView<Ch, R, S, D, F>,
)
    requires
        keys_ascend(before.peers),
        0 <= place < before.engines.len(),
        0 <= count < before.engines[place].1.inbox.len(),
        state == before.while_receiving(done, place, count),
        taken == (EngineMeetingView {
            engines: state.engines.update(
                place,
                (
                    state.engines[place].0,
                    SessionView {
                        inbox: state.engines[place].1.inbox.skip(1),
                        ..state.engines[place].1
                    },
                ),
            ),
            ..state
        }),
    ensures
        taken == before.while_receiving(done, place, count + 1),
        taken.after_frame(before.engines[place].0, before.engines[place].1.inbox[count])
            == before.while_receiving(
            done.push((before.engines[place].0, before.engines[place].1.inbox[count])),
            place,
            count + 1,
        ),
{
    let key = before.engines[place].0;
    let frame = before.engines[place].1.inbox[count];
    let next = (key, frame);
    let one = taken.after_frame(key, frame);
    let all = before.while_receiving(done.push(next), place, count + 1);
    let popped = before.while_receiving(done, place, count + 1);
    assert forall|k: int| 0 <= k < before.engines.len() implies #[trigger] taken.engines[k]
        == popped.engines[k] by {
        assert(state.engines[k] == engines_while(before.engines, done, place, count)[k]);
        if k == place {
            assert(before.engines[k].1.inbox.skip(count).skip(1)
                =~= before.engines[k].1.inbox.skip(count + 1));
        }
        assert(taken.engines[k].1 =~= popped.engines[k].1);
    }
    assert(taken.engines =~= popped.engines);
    assert forall|k: int| 0 <= k < before.engines.len() implies #[trigger] one.engines[k]
        == all.engines[k] by {
        lemma_one_more_frame(
            done,
            next,
            before.engines[k].0,
            before.engines[k].1.engine_id,
            0,
            0,
            before.config,
            before.peers,
        );
        assert(state.engines[k] == engines_while(before.engines, done, place, count)[k]);
        if k == place {
            assert(before.engines[k].1.inbox.skip(count).skip(1)
                =~= before.engines[k].1.inbox.skip(count + 1));
        }
        assert(one.engines[k].1.outbox =~= all.engines[k].1.outbox);
        assert(one.engines[k].1 =~= all.engines[k].1);
    }
    assert(one.engines =~= all.engines);
    lemma_one_more_frame(done, next, 0, EngineId(0), 0, 0, before.config, before.peers);
    lemma_peers_with(before.peers, done, key, frame, before.config);
    lemma_peers_with_push(before.peers, done, next);
    assert(one.meeting.engine_in =~= all.meeting.engine_in);
    assert(one.warnings =~= all.warnings);
    assert(one =~= all);
}

proof fn lemma_inbox_emptied<Ch, R, S, D, F>(
    before: EngineMeetingView<Ch, R, S, D, F>,
    done: Seq<(u64, RoutedFrameView)>,
    place: int,
)
    requires
        0 <= place < before.engines.len(),
    ensures
        before.while_receiving(done, place, before.engines[place].1.inbox.len() as int)
            == before.while_receiving(done, place + 1, 0),
{
    let full = before.engines[place].1.inbox.len() as int;
    let one = engines_while(before.engines, done, place, full);
    let all = engines_while(before.engines, done, place + 1, 0);
    assert forall|k: int| 0 <= k < before.engines.len() implies #[trigger] one[k] == all[k] by {
        assert(one[k].1.inbox =~= all[k].1.inbox);
    }
    assert(one =~= all);
}

proof fn lemma_all_received<Ch, R, S, D, F>(
    before: EngineMeetingView<Ch, R, S, D, F>,
    done: Seq<(u64, RoutedFrameView)>,
)
    requires
        done == received(before.engines),
    ensures
        before.while_receiving(done, before.engines.len() as int, 0) == before.after_receiving(),
{
    let one = engines_while(before.engines, done, before.engines.len() as int, 0);
    assert(one =~= engines_served(before.engines, done));
}

proof fn lemma_nothing_settled<Ch, R, S, D, F>(state: EngineMeetingView<Ch, R, S, D, F>)
    ensures
        state.after_settling(0) == state,
{
    let after = state.after_settling(0);
    assert(state.meeting.engine_out.take(0) =~= Seq::<EngineEventView>::empty());
    assert forall|k: int| 0 <= k < state.engines.len() implies #[trigger] after.engines[k]
        == state.engines[k] by {
        assert(after.engines[k].1 =~= state.engines[k].1);
    }
    assert(after.engines =~= state.engines);
    assert(after.meeting.engine_out =~= state.meeting.engine_out);
    assert(after.warnings =~= state.warnings);
}

proof fn lemma_one_more_settled<Ch, R, S, D, F>(
    before: EngineMeetingView<Ch, R, S, D, F>,
    count: int,
    taken: EngineMeetingView<Ch, R, S, D, F>,
)
    requires
        0 <= count < before.meeting.engine_out.len(),
        taken == (EngineMeetingView {
            meeting: MeetingView {
                engine_out: before.meeting.engine_out.skip(count + 1),
                ..before.meeting
            },
            ..before.after_settling(count)
        }),
    ensures
        before.after_settling(count + 1) == (EngineMeetingView {
            engines: match announcement(taken.peers, before.meeting.engine_out[count]) {
                Some(frame) => engines_with(taken.engines, seq![frame]),
                None => taken.engines,
            },
            peers: peers_told(taken.peers, before.meeting.engine_out[count]),
            warnings: match event_warning(
                taken.config,
                taken.peers,
                before.meeting.engine_out[count],
            ) {
                Some(warning) => taken.warnings.push(warning),
                None => taken.warnings,
            },
            ..taken
        }),
{
    let events = before.meeting.engine_out;
    let event = events[count];
    let all = before.after_settling(count + 1);
    assert(events.take(count + 1).drop_last() =~= events.take(count));
    assert(events.take(count + 1).last() == event);
    let frames = announced(before.peers, events.take(count));
    if let Some(frame) = announcement(taken.peers, event) {
        let one = engines_with(taken.engines, seq![frame]);
        assert forall|k: int| 0 <= k < before.engines.len() implies #[trigger] one[k]
            == all.engines[k] by {
            lemma_addressed_push(frames, frame, before.engines[k].1.engine_id);
            lemma_single_addressed(frame, before.engines[k].1.engine_id);
            assert(one[k].1.outbox =~= all.engines[k].1.outbox);
            assert(one[k].1 =~= all.engines[k].1);
        }
        assert(one =~= all.engines);
    }
    if let Some(warning) = event_warning(taken.config, taken.peers, event) {
        assert(taken.warnings.push(warning) =~= all.warnings);
    }
}

impl<Ch: Pump, R, S, D, F> EngineMeeting<Ch, R, S, D, F> where
    F: Fn(PeerBuilder<Ch, R, S, D>) -> Result<PeerBuilder<Ch, R, S, D>, Error>,
 {
    /// Adds a frame that came from the machine under `key`. Says whether there is one.
    pub fn push_frame(&mut self, key: u64, frame: RoutedFrame) -> (result: bool)
        ensures
            result == has_key(old(self)@.engines, key),
            final(self)@ == (match value_of(old(self)@.engines, key) {
                Some(session) => EngineMeetingView {
                    engines: with_value(
                        old(self)@.engines,
                        key,
                        SessionView { inbox: session.inbox.push(frame@), ..session },
                    ),
                    ..old(self)@
                },
                None => old(self)@,
            }),
    {
        let ghost before = self@;
        let ghost entries = self.engines@;
        let (place, found): (usize, bool) = self.engines.find(key);
        proof {
            lemma_same_keys(entries, before.engines, key);
        }
        if !found {
            return false;
        }
        let session = self.engines.value_mut(place);
        let ghost held = session@;
        session.inbox.push_back(frame);
        assert(session@.inbox =~= held.inbox.push(frame@));
        assert(session@ =~= (SessionView { inbox: held.inbox.push(frame@), ..held }));
        proof {
            lemma_viewed_update(entries, place as int, *session);
        }
        assert(self@.engines =~= with_value(before.engines, key, session@));
        true
    }

    /// Takes note that the machine under `key` takes no more frames. Says whether there is one.
    pub fn lose_machine(&mut self, key: u64) -> (result: bool)
        ensures
            result == has_key(old(self)@.engines, key),
            final(self)@ == (match value_of(old(self)@.engines, key) {
                Some(session) => EngineMeetingView {
                    engines: with_value(
                        old(self)@.engines,
                        key,
                        SessionView { gone: true, ..session },
                    ),
                    ..old(self)@
                },
                None => old(self)@,
            }),
    {
        let ghost before = self@;
        let ghost entries = self.engines@;
        let (place, found): (usize, bool) = self.engines.find(key);
        proof {
            lemma_same_keys(entries, before.engines, key);
        }
        if !found {
            return false;
        }
        let session = self.engines.value_mut(place);
        let ghost held = session@;
        session.gone = true;
        assert(session@ =~= (SessionView { gone: true, ..held }));
        proof {
            lemma_viewed_update(entries, place as int, *session);
        }
        assert(self@.engines =~= with_value(before.engines, key, session@));
        true
    }

    /// Takes the first frame for the machine under `key`.
    pub fn take_frame(&mut self, key: u64) -> (result: Option<RoutedFrame>)
        ensures
            match value_of(old(self)@.engines, key) {
                Some(session) => if session.outbox.len() > 0 {
                    &&& result matches Some(frame)
                    &&& frame@ == session.outbox[0]
                    &&& final(self)@ == (EngineMeetingView {
                        engines: with_value(
                            old(self)@.engines,
                            key,
                            SessionView { outbox: session.outbox.skip(1), ..session },
                        ),
                        ..old(self)@
                    })
                } else {
                    result is None && final(self)@ == old(self)@
                },
                None => result is None && final(self)@ == old(self)@,
            },
    {
        let ghost before = self@;
        let ghost entries = self.engines@;
        let (place, found): (usize, bool) = self.engines.find(key);
        proof {
            lemma_same_keys(entries, before.engines, key);
        }
        if !found {
            return None;
        }
        let session = self.engines.value_mut(place);
        let ghost held = session@;
        let result = session.outbox.pop_front();
        proof {
            if held.outbox.len() > 0 {
                assert(session@.outbox =~= held.outbox.skip(1));
                assert(session@ =~= (SessionView { outbox: held.outbox.skip(1), ..held }));
            } else {
                assert(session@ =~= held);
            }
            lemma_viewed_update(entries, place as int, *session);
        }
        assert(self@.engines =~= with_value(before.engines, key, session@));
        assert(held.outbox.len() == 0 ==> self@.engines =~= before.engines);
        result
    }

    /// Adds a packet that comes from a channel of a peer. Says whether the peer writes to it.
    pub fn push_packet(
        &mut self,
        peer_id: PeerId,
        channel_id: ChannelId,
        packet: ProtocolPacketData,
    ) -> (result: bool)
        ensures
            match value_of(old(self)@.peers, peer_id.0) {
                None => !result && final(self)@ == old(self)@,
                Some(peer) => match value_of(peer.receivers, channel_id.0) {
                    None => !result && final(self)@ == old(self)@,
                    Some(queue) => result && final(self)@ == (EngineMeetingView {
                        peers: with_value(
                            old(self)@.peers,
                            peer_id.0,
                            DescriptorView {
                                receivers: with_value(
                                    peer.receivers,
                                    channel_id.0,
                                    QueueView { packets: queue.packets.push(packet@), ..queue },
                                ),
                                ..peer
                            },
                        ),
                        ..old(self)@
                    }),
                },
            },
    {
        let ghost before = self@;
        let ghost entries = self.peers@;
        let (place, found): (usize, bool) = self.peers.find(peer_id.0);
        proof {
            lemma_same_keys(entries, before.peers, peer_id.0);
        }
        if !found {
            return false;
        }
        let ghost peer = before.peers[place as int].1;
        let ghost queues = entries[place as int].1.packet_receivers@;
        proof {
            lemma_same_keys(queues, viewed(queues), channel_id.0);
        }
        let descriptor = self.peers.value_mut(place);
        let (at, known): (usize, bool) = descriptor.packet_receivers.find(channel_id.0);
        if known {
            let receiver = descriptor.packet_receivers.value_mut(at);
            let ghost held = receiver@;
            receiver.receiver.push_back(packet);
            assert(receiver@.packets =~= held.packets.push(packet@));
            proof {
                lemma_viewed_update(queues, at as int, *receiver);
            }
            assert(descriptor@.receivers =~= with_value(peer.receivers, channel_id.0, receiver@));
        }
        proof {
            lemma_viewed_update(entries, place as int, *descriptor);
        }
        assert(self@.peers =~= with_value(before.peers, peer_id.0, descriptor@));
        assert(!known ==> self@.peers =~= before.peers);
        known
    }

    /// Takes the first packet on its way to a channel of a peer.
    pub fn take_packet(&mut self, peer_id: PeerId, channel_id: ChannelId) -> (result: Option<
        ProtocolPacketData,
    >)
        ensures
            match value_of(old(self)@.peers, peer_id.0) {
                None => result is None && final(self)@ == old(self)@,
                Some(peer) => match value_of(peer.senders, channel_id.0) {
                    None => result is None && final(self)@ == old(self)@,
                    Some(queue) => if queue.packets.len() == 0 {
                        result is None && final(self)@ == old(self)@
                    } else {
                        &&& result matches Some(packet)
                        &&& packet@ == queue.packets[0]
                        &&& final(self)@ == (EngineMeetingView {
                            peers: with_value(
                                old(self)@.peers,
                                peer_id.0,
                                DescriptorView {
                                    senders: with_value(
                                        peer.senders,
                                        channel_id.0,
                                        QueueView { packets: queue.packets.skip(1), ..queue },
                                    ),
                                    ..peer
                                },
                            ),
                            ..old(self)@
                        })
                    },
                },
            },
    {
        let ghost before = self@;
        let ghost entries = self.peers@;
        let (place, found): (usize, bool) = self.peers.find(peer_id.0);
        proof {
            lemma_same_keys(entries, before.peers, peer_id.0);
        }
        if !found {
            return None;
        }
        let ghost peer = before.peers[place as int].1;
        let ghost queues = entries[place as int].1.packet_senders@;
        proof {
            lemma_same_keys(queues, viewed(queues), channel_id.0);
        }
        let descriptor = self.peers.value_mut(place);
        let (at, known): (usize, bool) = descriptor.packet_senders.find(channel_id.0);
        let mut result: Option<ProtocolPacketData> = None;
        let ghost mut held = 0nat;
        if known {
            let sender = descriptor.packet_senders.value_mut(at);
            let ghost queue = sender@;
            proof {
                held = queue.packets.len();
            }
            result = sender.sender.pop_front();
            proof {
                if held > 0 {
                    assert(sender@.packets =~= queue.packets.skip(1));
                } else {
                    assert(sender@ =~= queue);
                }
                lemma_viewed_update(queues, at as int, *sender);
            }
            assert(descriptor@.senders =~= with_value(peer.senders, channel_id.0, sender@));
            assert(held == 0 ==> descriptor@.senders =~= peer.senders);
        }
        proof {
            lemma_viewed_update(entries, place as int, *descriptor);
        }
        assert(self@.peers =~= with_value(before.peers, peer_id.0, descriptor@));
        assert(held == 0 ==> descriptor@ =~= peer);
        assert(held == 0 ==> self@.peers =~= before.peers);
        result
    }

    /// Adds an event from the user.
    pub fn push_user_event(&mut self, event: MeetingUserEvent<R, S, D>)
        ensures
            final(self)@ == (EngineMeetingView {
                meeting: MeetingView {
                    user_in: old(self)@.meeting.user_in.push(event@),
                    ..old(self)@.meeting
                },
                ..old(self)@
            }),
    {
        self.meeting.push_user_event(event);
    }

    /// Takes the first event for the user.
    pub fn take_user_event(&mut self) -> (result: Option<MeetingUserEvent<R, S, D>>)
        ensures
            old(self)@.meeting.user_out.len() == 0 ==> result is None && final(self)@ == old(
                self,
            )@,
            old(self)@.meeting.user_out.len() > 0 ==> {
                &&& result matches Some(event)
                &&& event@ == old(self)@.meeting.user_out[0]
                &&& final(self)@ == (EngineMeetingView {
                    meeting: MeetingView {
                        user_out: old(self)@.meeting.user_out.skip(1),
                        ..old(self)@.meeting
                    },
                    ..old(self)@
                })
            },
    {
        self.meeting.take_user_event()
    }

    /// Takes note that the user takes no more events.
    pub fn lose_user(&mut self)
        ensures
            final(self)@ == (EngineMeetingView {
                meeting: MeetingView { user_gone: true, ..old(self)@.meeting },
                ..old(self)@
            }),
    {
        self.meeting.lose_user();
    }

    /// Ends the meeting.
    pub fn close(&mut self)
        ensures
            final(self)@ == (EngineMeetingView {
                meeting: old(self)@.meeting.told_engine(EngineEventView::MeetingDestroyed).0,
                ..old(self)@
            }),
    {
        self.meeting.close();
    }

    /// The channels of a peer, to be changed.
    pub fn channels_mut(&mut self, peer_id: PeerId) -> (result: Option<&mut Vec<Ch>>)
        ensures
            match result {
                Some(channels) => {
                    &&& value_of(old(self)@.meeting.peers, peer_id.0) == Some(channels@)
                    &&& final(self)@ == (EngineMeetingView {
                        meeting: MeetingView {
                            peers: with_value(
                                old(self)@.meeting.peers,
                                peer_id.0,
                                final(channels)@,
                            ),
                            ..old(self)@.meeting
                        },
                        ..old(self)@
                    })
                },
                None => !has_key(old(self)@.meeting.peers, peer_id.0) && final(self)@ == old(
                    self,
                )@,
            },
    {
        self.meeting.channels_mut(peer_id)
    }

    /// Whether the machine knows how to reach a peer. Peers and machines stand in the order of
    /// their numbers, and so do the channels of a peer.
    pub fn knows_peer(&self, peer_id: PeerId) -> (result: bool)
        ensures
            result == has_key(self@.peers, peer_id.0),
            keys_ascend(self@.peers),
            keys_ascend(self@.engines),
            value_of(self@.peers, peer_id.0) matches Some(peer) ==> keys_ascend(peer.senders)
                && keys_ascend(peer.receivers),
    {
        let _ = self.peers.len();
        let _ = self.engines.len();
        proof {
            lemma_same_keys(self.peers@, self@.peers, peer_id.0);
            lemma_same_keys(self.engines@, self@.engines, 0);
        }
        if let Some(descriptor) = self.peers.get(peer_id.0) {
            let _ = descriptor.packet_senders.len();
            let _ = descriptor.packet_receivers.len();
            proof {
                let ghost senders = descriptor.packet_senders@;
                let ghost receivers = descriptor.packet_receivers@;
                lemma_same_keys(senders, viewed(senders), 0);
                lemma_same_keys(receivers, viewed(receivers), 0);
                lemma_viewed(self.peers@, peer_id.0, *descriptor);
            }
        }
        self.peers.contains_key(peer_id.0)
    }

    /// Takes all warnings.
    pub fn take_warnings(&mut self) -> (result: Vec<EngineWarning>)
        ensures
            result@ == old(self)@.warnings,
            final(self)@ == (EngineMeetingView { warnings: Seq::empty(), ..old(self)@ }),
    {
        let ghost before = self@;
        let mut result: Vec<EngineWarning> = Vec::new();
        std::mem::swap(&mut result, &mut self.warnings);
        assert(self@ =~= (EngineMeetingView { warnings: Seq::empty(), ..before }));
        result
    }
}

/// A machine gets the frames of other machines that are for it, each once and in their order.
pub proof fn law_forwarding_is_filtering(
    frames: Seq<(u64, RoutedFrameView)>,
    key: u64,
    engine_id: EngineId,
)
    ensures
        forwarded(frames, key, engine_id) == frames.filter(
            |frame: (u64, RoutedFrameView)| frame.0 != key && frame.1.is_for(engine_id),
        ).map_values(|frame: (u64, RoutedFrameView)| frame.1),
    decreases frames.len(),
{
    reveal(Seq::filter);
    let wanted = |frame: (u64, RoutedFrameView)| frame.0 != key && frame.1.is_for(engine_id);
    let alone = |frame: (u64, RoutedFrameView)| frame.1;
    if frames.len() > 0 {
        law_forwarding_is_filtering(frames.drop_last(), key, engine_id);
        let rest = frames.drop_last().filter(wanted);
        if wanted(frames.last()) {
            assert(rest.push(frames.last()).map_values(alone) =~= rest.map_values(alone).push(
                frames.last().1,
            ));
        }
    }
    assert(forwarded(frames, key, engine_id) =~= frames.filter(wanted).map_values(alone));
}

/// No machine gets its own frames back.
pub proof fn law_no_echo(key: u64, inbox: Seq<RoutedFrameView>, engine_id: EngineId)
    ensures
        forwarded(frames_of(key, inbox), key, engine_id) == Seq::<RoutedFrameView>::empty(),
    decreases inbox.len(),
{
    if inbox.len() > 0 {
        law_no_echo(key, inbox.drop_last(), engine_id);
        assert(frames_of(key, inbox).drop_last() =~= frames_of(key, inbox.drop_last()));
    }
}

/// A packet that names machines reaches those alone, and one that names none reaches all.
pub proof fn law_packets_reach_recepients(
    engines: Seq<(u64, SessionView)>,
    peer_id: PeerId,
    channel_id: ChannelId,
    packet: PacketDataView,
    place: int,
)
    requires
        0 <= place < engines.len(),
    ensures
        engines_with(engines, seq![RoutedFrameView::Packet(peer_id, channel_id, packet)])[place].1.outbox
            == (if packet.recepients.len() == 0 || packet.recepients.contains(
            engines[place].1.engine_id,
        ) {
            engines[place].1.outbox.push(RoutedFrameView::Packet(peer_id, channel_id, packet))
        } else {
            engines[place].1.outbox
        }),
{
    let frame = RoutedFrameView::Packet(peer_id, channel_id, packet);
    lemma_single_addressed(frame, engines[place].1.engine_id);
    let after = engines_with(engines, seq![frame])[place].1.outbox;
    if frame.is_for(engines[place].1.engine_id) {
        assert(after =~= engines[place].1.outbox.push(frame));
    } else {
        assert(after =~= engines[place].1.outbox);
    }
}

/// A machine that comes gets to know every peer.
pub proof fn law_newcomers_know_all_peers(
    engines: Seq<(u64, SessionView)>,
    peers: Seq<(u64, DescriptorView)>,
    events: Seq<EngineMeetingEventView>,
    key: u64,
    session: SessionView,
)
    requires
        keys_ascend(engines),
    ensures
        ({
            let after = admitted(
                engines,
                peers,
                events.push(EngineMeetingEventView::RegisterEngine { key, session }),
            );
            &&& value_of(after, key) == Some(
                SessionView { outbox: session.outbox + introductions(peers), ..session },
            )
            &&& forall|i: int|
                0 <= i < peers.len() ==> #[trigger] introductions(peers)[i] == introduction(
                    peers[i].1.info,
                )
        }),
{
    let event = EngineMeetingEventView::RegisterEngine { key, session };
    assert(events.push(event).drop_last() =~= events);
    lemma_admitted_keeps_order(engines, peers, events);
    law_with_value(
        admitted(engines, peers, events),
        key,
        SessionView { outbox: session.outbox + introductions(peers), ..session },
        key,
    );
}

/// Machines stay in the order of their keys.
proof fn lemma_admitted_keeps_order(
    engines: Seq<(u64, SessionView)>,
    peers: Seq<(u64, DescriptorView)>,
    events: Seq<EngineMeetingEventView>,
)
    requires
        keys_ascend(engines),
    ensures
        keys_ascend(admitted(engines, peers, events)),
    decreases events.len(),
{
    if events.len() > 0 {
        lemma_admitted_keeps_order(engines, peers, events.drop_last());
        let before = admitted(engines, peers, events.drop_last());
        match events.last() {
            EngineMeetingEventView::RegisterEngine { key, session } => {
                law_with_value(
                    before,
                    key,
                    SessionView { outbox: session.outbox + introductions(peers), ..session },
                    key,
                );
            },
            EngineMeetingEventView::UnregisterEngine { key } => {
                law_without_key(before, key, key);
            },
        }
    }
}


/// A local peer that comes and goes is announced both times, and leaves nothing behind.
#[verifier::spinoff_prover]
#[verifier::rlimit(40)]
pub proof fn law_come_and_gone(peers: Seq<(u64, DescriptorView)>, descriptor: DescriptorView)
    requires
        keys_ascend(peers),
        !has_key(peers, descriptor.info.peer_id.0),
        !descriptor.info.remote,
    ensures
        ({
            let events = seq![
                EngineEventView::PeerCreated(descriptor),
                EngineEventView::PeerDestroyed(descriptor.info.peer_id),
            ];
            &&& peers_settled(peers, events) == peers
            &&& announced(peers, events) == seq![
                introduction(descriptor.info),
                RoutedFrameView::Control(
                    ProtocolControlFrame::DestroyPeer(descriptor.info.peer_id),
                ),
            ]
        }),
{
    let id = descriptor.info.peer_id;
    let created = EngineEventView::PeerCreated(descriptor);
    let destroyed = EngineEventView::PeerDestroyed(id);
    let none = Seq::<EngineEventView>::empty();
    let known = with_value(peers, id.0, descriptor);
    lemma_one_more_told(peers, none, created);
    assert(peers_settled(peers, none.push(created)) == known);
    lemma_one_more_told(peers, none.push(created), destroyed);
    law_with_value(peers, id.0, descriptor, id.0);
    law_without_what_was_added(peers, id.0, descriptor);
    assert(seq![created, destroyed] =~= none.push(created).push(destroyed));
    let first = introduction(descriptor.info);
    let second = RoutedFrameView::Control(ProtocolControlFrame::DestroyPeer(id));
    assert(Seq::<RoutedFrameView>::empty().push(first).push(second) =~= seq![first, second]);
}

proof fn lemma_one_more_told(
    peers: Seq<(u64, DescriptorView)>,
    events: Seq<EngineEventView>,
    event: EngineEventView,
)
    ensures
        peers_settled(peers, events.push(event)) == peers_told(
            peers_settled(peers, events),
            event,
        ),
        announced(peers, events.push(event)) == (match announcement(
            peers_settled(peers, events),
            event,
        ) {
            Some(frame) => announced(peers, events).push(frame),
            None => announced(peers, events),
        }),
{
    assert(events.push(event).drop_last() =~= events);
}

/// Whether all machines take frames.
pub open spec fn nobody_gone(engines: Seq<(u64, SessionView)>) -> bool {
    forall|k: int| 0 <= k < engines.len() ==> !(#[trigger] engines[k]).1.gone
}

proof fn lemma_nobody_gone(
    engines: Seq<(u64, SessionView)>,
    peers: Seq<(u64, DescriptorView)>,
    events: Seq<EngineMeetingEventView>,
)
    requires
        keys_ascend(engines),
        nobody_gone(engines),
        forall|i: int|
            0 <= i < events.len() ==> ((
            #[trigger] events[i]) matches EngineMeetingEventView::RegisterEngine { session, .. }
                ==> !session.gone),
    ensures
        keys_ascend(admitted(engines, peers, events)),
        nobody_gone(admitted(engines, peers, events)),
    decreases events.len(),
{
    if events.len() > 0 {
        let rest = events.drop_last();
        assert forall|i: int| 0 <= i < rest.len() implies ((
        #[trigger] rest[i]) matches EngineMeetingEventView::RegisterEngine { session, .. }
            ==> !session.gone) by {
            assert(rest[i] == events[i]);
        }
        lemma_nobody_gone(engines, peers, rest);
        let before = admitted(engines, peers, rest);
        assert(events[events.len() - 1] == events.last());
        match events.last() {
            EngineMeetingEventView::RegisterEngine { key, session } => {
                let introduced = SessionView {
                    outbox: session.outbox + introductions(peers),
                    ..session
                };
                law_with_value(before, key, introduced, key);
                lemma_place(before, key);
            },
            EngineMeetingEventView::UnregisterEngine { key } => {
                law_without_key(before, key, key);
                lemma_place(before, key);
            },
        }
    }
}

/// As long as all machines take frames, a round gets as far as running the meeting: machines
/// came and went, all that came was forwarded, told and delivered, packets were carried, and all
/// that peers wrote was sent.
pub proof fn law_nobody_gone_stops_nothing<Ch: Pump, R, S, D, F>(
    state: EngineMeetingView<Ch, R, S, D, F>,
    after: EngineMeetingView<Ch, R, S, D, F>,
    error: Option<Error>,
) where F: Fn(PeerBuilder<Ch, R, S, D>) -> Result<PeerBuilder<Ch, R, S, D>, Error>
    requires
        keys_ascend(state.engines),
        nobody_gone(state.engines),
        forall|i: int|
            0 <= i < state.events.len() ==> ((
            #[trigger] state.events[i]) matches EngineMeetingEventView::RegisterEngine {
                session,
                ..
            } ==> !session.gone),
        state.maintained(after, error),
    ensures
        exists|carried: EngineMeetingView<Ch, R, S, D, F>|
            {
                &&& #[trigger] state.after_admission().after_receiving().carries(carried)
                &&& carried.after_sending().runs(None, after, error)
            },
{
    let (met, so_far) = choose|met: EngineMeetingView<Ch, R, S, D, F>, so_far: Option<Error>|
        {
            &&& state.admits(met, so_far)
            &&& #[trigger] met.takes_in(so_far, after, error)
        };
    if so_far is Some {
        let at = choose|at: int| #[trigger] state.turned_away_at(at);
        assert(can_be_introduced(state.peers, state.events[at]));
    }
    lemma_nobody_gone(state.engines, state.peers, state.events);
    let (received, stuck) = choose|
        received: EngineMeetingView<Ch, R, S, D, F>,
        stuck: Option<Error>,
    |
        {
            &&& met.receives(received, stuck)
            &&& #[trigger] received.carries_on(stuck, after, error)
        };
    if stuck is Some {
        let (place, count) = choose|place: int, count: int| #[trigger]
            met.receiving_stuck_at(place, count);
        assert(refused(
            met.engines,
            Some(met.engines[place].0),
            met.engines[place].1.inbox[count],
        ));
        assert(false);
    }
    let carried = choose|carried: EngineMeetingView<Ch, R, S, D, F>| #[trigger]
        received.carries(carried) && carried.turns(after, error);
    let (sent, earlier) = choose|
        sent: EngineMeetingView<Ch, R, S, D, F>,
        earlier: Option<Error>,
    |
        {
            &&& carried.sends(sent, earlier)
            &&& #[trigger] sent.runs(earlier, after, error)
        };
    assert forall|k: int| 0 <= k < carried.engines.len() implies !(
    #[trigger] carried.engines[k]).1.gone by {
        assert(!met.engines[k].1.gone);
    }
    if earlier is Some {
        let (peer, place, count) = choose|peer: int, place: int, count: int| #[trigger]
            sending_stuck_at(carried.engines, carried.peers, peer, place, count);
        assert(false);
    }
}

/// A peer that comes to be on this machine joins on every machine that is told of it, under the
/// same number and role, and one that goes here leaves there. Peers that came from elsewhere, and
/// peers that are there already, are not announced again.
pub proof fn law_announced_elsewhere(
    peers: Seq<(u64, DescriptorView)>,
    descriptor: DescriptorView,
    peer_id: PeerId,
    engine_id: EngineId,
)
    ensures
        ({
            let here = announcement(peers, EngineEventView::PeerCreated(descriptor));
            &&& here is Some <==> !descriptor.info.remote && !has_key(
                peers,
                descriptor.info.peer_id.0,
            )
            &&& here is Some ==> here->0.is_for(engine_id) && told_by(here->0) == Some(
                EngineEventView::PeerJoined(descriptor.info.peer_id, descriptor.info.role_id),
            )
        }),
        ({
            let gone = announcement(peers, EngineEventView::PeerDestroyed(peer_id));
            &&& gone is Some <==> has_key(peers, peer_id.0)
            &&& gone is Some ==> gone->0.is_for(engine_id) && told_by(gone->0) == Some(
                EngineEventView::PeerLeft(peer_id),
            )
        }),
{
}

/// Frames about peers are told to the meeting, each once and in order; other frames are not.
pub proof fn law_told_in_order(
    first: Seq<(u64, RoutedFrameView)>,
    second: Seq<(u64, RoutedFrameView)>,
    key: u64,
    frame: RoutedFrameView,
)
    ensures
        told(first + second) == told(first) + told(second),
        told(Seq::empty()) == Seq::<EngineEventView>::empty(),
        told(seq![(key, frame)]) == (match frame {
            RoutedFrameView::Control(
                ProtocolControlFrame::CreatePeer(peer_id, role_id),
            ) => seq![EngineEventView::PeerJoined(peer_id, role_id)],
            RoutedFrameView::Control(ProtocolControlFrame::DestroyPeer(peer_id)) => seq![
                EngineEventView::PeerLeft(peer_id),
            ],
            _ => Seq::empty(),
        }),
    decreases second.len(),
{
    assert(seq![(key, frame)].drop_last() =~= Seq::<(u64, RoutedFrameView)>::empty());
    assert(seq![(key, frame)].last() == (key, frame));
    let nothing = Seq::<(u64, RoutedFrameView)>::empty();
    assert(told(nothing) == Seq::<EngineEventView>::empty());
    match told_by(frame) {
        Some(event) => {
            assert(told(seq![(key, frame)]) == told(nothing).push(event));
            assert(Seq::<EngineEventView>::empty().push(event) =~= seq![event]);
        },
        None => {
            assert(told(seq![(key, frame)]) == told(nothing));
        },
    }
    if second.len() == 0 {
        assert(first + second =~= first);
        assert(told(first) + Seq::<EngineEventView>::empty() =~= told(first));
    } else {
        law_told_in_order(first, second.drop_last(), key, frame);
        assert((first + second).drop_last() =~= first + second.drop_last());
        assert(told(first + second) =~= told(first) + told(second));
    }
}

/// Packets are delivered to the channel of the peer that they name, each once and in order, and
/// to no other.
pub proof fn law_delivered_in_order(
    first: Seq<(u64, RoutedFrameView)>,
    second: Seq<(u64, RoutedFrameView)>,
    key: u64,
    peer: PeerId,
    channel: ChannelId,
    packet: PacketDataView,
    control: ProtocolControlFrame,
    peer_id: u64,
    channel_id: u64,
)
    ensures
        delivered(first + second, peer_id, channel_id) == delivered(first, peer_id, channel_id)
            + delivered(second, peer_id, channel_id),
        delivered(Seq::empty(), peer_id, channel_id) == Seq::<PacketDataView>::empty(),
        delivered(
            seq![(key, RoutedFrameView::Packet(peer, channel, packet))],
            peer_id,
            channel_id,
        ) == if peer.0 == peer_id && channel.0 == channel_id {
            seq![packet]
        } else {
            Seq::empty()
        },
        delivered(seq![(key, RoutedFrameView::Control(control))], peer_id, channel_id) == Seq::<
            PacketDataView,
        >::empty(),
    decreases second.len(),
{
    let one = seq![(key, RoutedFrameView::Packet(peer, channel, packet))];
    let other = seq![(key, RoutedFrameView::Control(control))];
    assert(one.drop_last() =~= Seq::<(u64, RoutedFrameView)>::empty());
    assert(other.drop_last() =~= Seq::<(u64, RoutedFrameView)>::empty());
    assert(one.last() == (key, RoutedFrameView::Packet(peer, channel, packet)));
    assert(other.last() == (key, RoutedFrameView::Control(control)));
    if second.len() == 0 {
        assert(first + second =~= first);
        assert(delivered(first, peer_id, channel_id) + Seq::<PacketDataView>::empty()
            =~= delivered(first, peer_id, channel_id));
    } else {
        law_delivered_in_order(
            first,
            second.drop_last(),
            key,
            peer,
            channel,
            packet,
            control,
            peer_id,
            channel_id,
        );
        assert((first + second).drop_last() =~= first + second.drop_last());
        assert(delivered(first + second, peer_id, channel_id) =~= delivered(
            first,
            peer_id,
            channel_id,
        ) + delivered(second, peer_id, channel_id));
    }
}

/// A round of receiving gives each channel of each peer what was delivered to it, behind what it
/// had, and changes nothing else of any peer.
pub proof fn law_channels_get_what_is_delivered(
    peers: Seq<(u64, DescriptorView)>,
    frames: Seq<(u64, RoutedFrameView)>,
    place: int,
    channel: int,
)
    requires
        0 <= place < peers.len(),
        0 <= channel < peers[place].1.senders.len(),
    ensures
        ({
            let after = peers_with(peers, frames);
            let before = peers[place].1.senders[channel];
            &&& after.len() == peers.len()
            &&& after[place].0 == peers[place].0
            &&& after[place].1.info == peers[place].1.info
            &&& after[place].1.receivers == peers[place].1.receivers
            &&& after[place].1.senders.len() == peers[place].1.senders.len()
            &&& after[place].1.senders[channel].0 == before.0
            &&& after[place].1.senders[channel].1.mode == before.1.mode
            &&& after[place].1.senders[channel].1.packets == before.1.packets + delivered(
                frames,
                peers[place].0,
                before.0,
            )
        }),
{
}

/// Frames that are addressed to a machine are sent to it in order: those about peers to every
/// machine, and packets to their recepients, or to all if they name none.
pub proof fn law_addressed_in_order(
    first: Seq<RoutedFrameView>,
    second: Seq<RoutedFrameView>,
    control: ProtocolControlFrame,
    peer_id: PeerId,
    channel_id: ChannelId,
    packet: PacketDataView,
    engine_id: EngineId,
)
    ensures
        addressed(first + second, engine_id) == addressed(first, engine_id) + addressed(
            second,
            engine_id,
        ),
        addressed(Seq::empty(), engine_id) == Seq::<RoutedFrameView>::empty(),
        addressed(seq![RoutedFrameView::Control(control)], engine_id)
            == seq![RoutedFrameView::Control(control)],
        addressed(seq![RoutedFrameView::Packet(peer_id, channel_id, packet)], engine_id) == if
            packet.recepients.len() == 0 || packet.recepients.contains(engine_id) {
            seq![RoutedFrameView::Packet(peer_id, channel_id, packet)]
        } else {
            Seq::empty()
        },
    decreases second.len(),
{
    let one = seq![RoutedFrameView::Packet(peer_id, channel_id, packet)];
    let other = seq![RoutedFrameView::Control(control)];
    assert(one.drop_last() =~= Seq::<RoutedFrameView>::empty());
    assert(other.drop_last() =~= Seq::<RoutedFrameView>::empty());
    assert(one.last() == RoutedFrameView::Packet(peer_id, channel_id, packet));
    assert(other.last() == RoutedFrameView::Control(control));
    assert(Seq::<RoutedFrameView>::empty().push(RoutedFrameView::Control(control)) =~= other);
    assert(Seq::<RoutedFrameView>::empty().push(
        RoutedFrameView::Packet(peer_id, channel_id, packet),
    ) =~= one);
    if second.len() == 0 {
        assert(first + second =~= first);
        assert(addressed(first, engine_id) + Seq::<RoutedFrameView>::empty() =~= addressed(
            first,
            engine_id,
        ));
    } else {
        law_addressed_in_order(
            first,
            second.drop_last(),
            control,
            peer_id,
            channel_id,
            packet,
            engine_id,
        );
        assert((first + second).drop_last() =~= first + second.drop_last());
        assert(addressed(first + second, engine_id) =~= addressed(first, engine_id) + addressed(
            second,
            engine_id,
        ));
    }
}

/// What machines sent is received from all of them, with the machine that it is from, all of it
/// and in order.
pub proof fn law_all_frames_are_received(
    engines: Seq<(u64, SessionView)>,
    key: u64,
    session: SessionView,
    place: int,
)
    ensures
        received(Seq::empty()) == Seq::<(u64, RoutedFrameView)>::empty(),
        received(engines.push((key, session))) == received(engines) + frames_of(
            key,
            session.inbox,
        ),
        frames_of(key, session.inbox).len() == session.inbox.len(),
        0 <= place < session.inbox.len() ==> frames_of(key, session.inbox)[place] == (
            key,
            session.inbox[place],
        ),
{
    assert(engines.push((key, session)).drop_last() =~= engines);
}

/// A round of receiving leaves no frame unreceived, forwards to each machine what others sent,
/// behind what waits for it, and tells the meeting of peers that come and go.
pub proof fn law_receiving_empties_the_inboxes<Ch, R, S, D, F>(
    state: EngineMeetingView<Ch, R, S, D, F>,
    place: int,
)
    requires
        0 <= place < state.engines.len(),
    ensures
        ({
            let after = state.after_receiving();
            let before = state.engines[place];
            let key = before.0;
            let engine_id = before.1.engine_id;
            &&& after.engines.len() == state.engines.len()
            &&& after.engines[place].0 == key
            &&& after.engines[place].1.engine_id == engine_id
            &&& after.engines[place].1.gone == before.1.gone
            &&& after.engines[place].1.inbox.len() == 0
            &&& after.engines[place].1.outbox == before.1.outbox + received(state.engines).filter(
                |frame: (u64, RoutedFrameView)| frame.0 != key && frame.1.is_for(engine_id),
            ).map_values(|frame: (u64, RoutedFrameView)| frame.1)
            &&& after.meeting.engine_in == state.meeting.engine_in + told(received(state.engines))
            &&& after.meeting.peers == state.meeting.peers
            &&& after.meeting.user_in == state.meeting.user_in
            &&& after.meeting.user_out == state.meeting.user_out
            &&& after.meeting.engine_out == state.meeting.engine_out
            &&& after.events == state.events
        }),
{
    law_forwarding_is_filtering(
        received(state.engines),
        state.engines[place].0,
        state.engines[place].1.engine_id,
    );
}

/// A round of sending leaves no packet unsent, and each machine gets those that are for it,
/// behind what waits for it; what was delivered to channels stays.
pub proof fn law_sending_empties_the_queues<Ch, R, S, D, F>(
    state: EngineMeetingView<Ch, R, S, D, F>,
    peer: int,
    channel: int,
    machine: int,
)
    requires
        0 <= peer < state.peers.len(),
        0 <= channel < state.peers[peer].1.receivers.len(),
        0 <= machine < state.engines.len(),
    ensures
        ({
            let after = state.after_sending();
            &&& after.peers.len() == state.peers.len()
            &&& after.peers[peer].0 == state.peers[peer].0
            &&& after.peers[peer].1.info == state.peers[peer].1.info
            &&& after.peers[peer].1.senders == state.peers[peer].1.senders
            &&& after.peers[peer].1.receivers.len() == state.peers[peer].1.receivers.len()
            &&& after.peers[peer].1.receivers[channel].0 == state.peers[peer].1.receivers[channel].0
            &&& after.peers[peer].1.receivers[channel].1.mode
                == state.peers[peer].1.receivers[channel].1.mode
            &&& after.peers[peer].1.receivers[channel].1.packets.len() == 0
            &&& after.engines[machine].1.outbox == state.engines[machine].1.outbox + addressed(
                all_written(state.peers),
                state.engines[machine].1.engine_id,
            )
            &&& after.engines[machine].1.inbox == state.engines[machine].1.inbox
            &&& after.meeting == state.meeting
            &&& after.warnings == state.warnings
        }),
{
}

/// What is written are the packets of all peers, peer by peer and channel by channel, each under
/// the number of its peer and its channel and in order.
pub proof fn law_written_in_order(
    peers: Seq<(u64, DescriptorView)>,
    key: u64,
    peer: DescriptorView,
    receivers: Seq<(u64, QueueView)>,
    channel_id: u64,
    queue: QueueView,
    peer_id: PeerId,
    place: int,
)
    ensures
        all_written(Seq::empty()) == Seq::<RoutedFrameView>::empty(),
        all_written(peers.push((key, peer))) == all_written(peers) + written(
            peer.info.peer_id,
            peer.receivers,
        ),
        written(peer_id, Seq::empty()) == Seq::<RoutedFrameView>::empty(),
        ({
            let more = written(peer_id, receivers.push((channel_id, queue)));
            let before = written(peer_id, receivers);
            &&& more.len() == before.len() + queue.packets.len()
            &&& more.take(before.len() as int) == before
            &&& 0 <= place < queue.packets.len() ==> more[before.len() + place]
                == RoutedFrameView::Packet(peer_id, ChannelId(channel_id), queue.packets[place])
        }),
{
    assert(peers.push((key, peer)).drop_last() =~= peers);
    assert(receivers.push((channel_id, queue)).drop_last() =~= receivers);
    let more = written(peer_id, receivers.push((channel_id, queue)));
    assert(more.take(written(peer_id, receivers).len() as int) =~= written(peer_id, receivers));
}

/// Of what the meeting tells of its peers the machine keeps track: a peer that was created is
/// known, unless one with its number is, which stays; one that was destroyed is not known; and
/// other peers are as they were.
pub proof fn law_peers_are_kept_track_of(
    peers: Seq<(u64, DescriptorView)>,
    descriptor: DescriptorView,
    peer_id: PeerId,
    other: u64,
)
    requires
        keys_ascend(peers),
    ensures
        ({
            let after = peers_told(peers, EngineEventView::PeerCreated(descriptor));
            let id = descriptor.info.peer_id.0;
            &&& has_key(peers, id) ==> after == peers
            &&& !has_key(peers, id) ==> value_of(after, id) == Some(descriptor)
            &&& other != id ==> value_of(after, other) == value_of(peers, other)
            &&& keys_ascend(after)
        }),
        ({
            let after = peers_told(peers, EngineEventView::PeerDestroyed(peer_id));
            &&& value_of(after, peer_id.0) is None
            &&& other != peer_id.0 ==> value_of(after, other) == value_of(peers, other)
            &&& keys_ascend(after)
        }),
{
    law_with_value(peers, descriptor.info.peer_id.0, descriptor, other);
    law_with_value(peers, descriptor.info.peer_id.0, descriptor, descriptor.info.peer_id.0);
    law_without_key(peers, peer_id.0, other);
    law_without_key(peers, peer_id.0, peer_id.0);
}

/// Whoever does not want warnings gets none, and whoever wants them gets them where something is
/// unknown, there twice or unhandled, and nowhere else.
pub proof fn law_wanted_warnings(
    config: EngineMeetingConfig,
    peers: Seq<(u64, DescriptorView)>,
    key: u64,
    peer_id: PeerId,
    channel_id: ChannelId,
    packet: PacketDataView,
    control: ProtocolControlFrame,
    descriptor: DescriptorView,
    role_id: PeerRoleId,
)
    ensures
        frame_warning(config, peers, key, RoutedFrameView::Packet(peer_id, channel_id, packet))
            is Some <==> {
            ||| value_of(peers, peer_id.0) is None && config.warn_unknown_peer_packet
            ||| value_of(peers, peer_id.0) is Some && !has_key(
                value_of(peers, peer_id.0)->0.senders,
                channel_id.0,
            ) && config.warn_unknown_channel_packet
        },
        frame_warning(config, peers, key, RoutedFrameView::Control(control)) is Some <==> control
            is Heartbeat && config.warn_unhandled_control_frame,
        event_warning(config, peers, EngineEventView::PeerCreated(descriptor)) is Some <==> has_key(
            peers,
            descriptor.info.peer_id.0,
        ) && config.warn_duplicate_peer_creation,
        event_warning(config, peers, EngineEventView::PeerDestroyed(peer_id)) is Some <==> !has_key(
            peers,
            peer_id.0,
        ) && config.warn_unknown_peer_destruction,
        event_warning(config, peers, EngineEventView::PeerJoined(peer_id, role_id)) is Some
            <==> config.warn_unhandled_engine_event,
        event_warning(config, peers, EngineEventView::PeerLeft(peer_id)) is Some
            <==> config.warn_unhandled_engine_event,
        event_warning(config, peers, EngineEventView::MeetingDestroyed) is None,
{
}

/// A warning names what it is about and the machine that it came from.
pub proof fn law_warnings_name_their_cause(
    config: EngineMeetingConfig,
    peers: Seq<(u64, DescriptorView)>,
    key: u64,
    frame: RoutedFrameView,
    event: EngineEventView,
)
    ensures
        frame_warning(config, peers, key, frame) matches Some(warning) ==> match frame {
            RoutedFrameView::Control(control) => warning == EngineWarning::UnhandledControlFrame(
                key,
                control,
            ),
            RoutedFrameView::Packet(peer_id, channel_id, _) => {
                &&& !has_key(peers, peer_id.0) ==> warning == EngineWarning::UnknownPeerPacket(
                    key,
                    peer_id,
                )
                &&& has_key(peers, peer_id.0) ==> warning == EngineWarning::UnknownChannelPacket(
                    key,
                    peer_id,
                    channel_id,
                )
            },
        },
        event_warning(config, peers, event) matches Some(warning) ==> match event {
            EngineEventView::PeerCreated(descriptor) => warning
                == EngineWarning::DuplicatePeerCreation(descriptor.info.peer_id),
            EngineEventView::PeerDestroyed(peer_id) => warning
                == EngineWarning::UnknownPeerDestruction(peer_id),
            EngineEventView::PeerJoined(peer_id, _) => warning
                == EngineWarning::UnhandledEngineEvent(peer_id),
            EngineEventView::PeerLeft(peer_id) => warning == EngineWarning::UnhandledEngineEvent(
                peer_id,
            ),
            EngineEventView::MeetingDestroyed => false,
        },
{
}

/// A machine that is unregistered is gone, and other machines stay as they are.
pub proof fn law_unregistered_machines_are_gone(
    engines: Seq<(u64, SessionView)>,
    peers: Seq<(u64, DescriptorView)>,
    key: u64,
    other: u64,
)
    requires
        keys_ascend(engines),
    ensures
        ({
            let gone = admitted(
                engines,
                peers,
                seq![EngineMeetingEventView::UnregisterEngine { key }],
            );
            &&& value_of(gone, key) is None
            &&& other != key ==> value_of(gone, other) == value_of(engines, other)
        }),
{
    let events = seq![EngineMeetingEventView::UnregisterEngine { key }];
    assert(events.drop_last() =~= Seq::<EngineMeetingEventView>::empty());
    assert(events.last() == EngineMeetingEventView::UnregisterEngine { key });
    assert(admitted(engines, peers, events.drop_last()) == engines);
    assert(admitted(engines, peers, events) == without_key(engines, key));
    law_without_key(engines, key, other);
    law_without_key(engines, key, key);
}

/// A machine that is registered is there and hears of every peer, and other machines stay as
/// they are.
pub proof fn law_registered_machines_are_there(
    engines: Seq<(u64, SessionView)>,
    peers: Seq<(u64, DescriptorView)>,
    key: u64,
    session: SessionView,
    other: u64,
)
    requires
        keys_ascend(engines),
    ensures
        ({
            let come = admitted(
                engines,
                peers,
                seq![EngineMeetingEventView::RegisterEngine { key, session }],
            );
            &&& value_of(come, key) is Some
            &&& value_of(come, key)->0.engine_id == session.engine_id
            &&& value_of(come, key)->0.inbox == session.inbox
            &&& value_of(come, key)->0.outbox.len() == session.outbox.len() + peers.len()
            &&& other != key ==> value_of(come, other) == value_of(engines, other)
        }),
{
    let events = seq![EngineMeetingEventView::RegisterEngine { key, session }];
    let welcomed = SessionView { outbox: session.outbox + introductions(peers), ..session };
    assert(events.drop_last() =~= Seq::<EngineMeetingEventView>::empty());
    assert(events.last() == EngineMeetingEventView::RegisterEngine { key, session });
    assert(admitted(engines, peers, events.drop_last()) == engines);
    assert(admitted(engines, peers, events) == with_value(engines, key, welcomed));
    law_with_value(engines, key, welcomed, other);
    law_with_value(engines, key, welcomed, key);
}

/// Where every machine takes frames, taking note of what the meeting tells fails exactly if the
/// meeting tells that it is destroyed, and otherwise nothing that it told is left.
pub proof fn law_destroyed_meeting_ends<Ch, R, S, D, F>(
    state: EngineMeetingView<Ch, R, S, D, F>,
    after: EngineMeetingView<Ch, R, S, D, F>,
    error: Option<Error>,
)
    requires
        nobody_gone(state.engines),
        state.settled(after, error),
    ensures
        error is Some <==> exists|at: int|
            0 <= at < state.meeting.engine_out.len() && (
            #[trigger] state.meeting.engine_out[at]) is MeetingDestroyed,
        error is Some ==> error == Some(Error::MeetingDestroyed),
        error is None ==> after.meeting.engine_out.len() == 0,
        after.meeting.peers == state.meeting.peers,
        after.meeting.user_out == state.meeting.user_out,
{
    assert forall|except: Option<u64>, frame: RoutedFrameView| !refused(
        state.engines,
        except,
        frame,
    ) by {}
    if error is None {
        assert forall|i: int| 0 <= i < state.meeting.engine_out.len() implies !((
        #[trigger] state.meeting.engine_out[i]) is MeetingDestroyed) by {
            assert(!state.ends_with(i));
        }
    } else {
        let at = choose|at: int|
            {
                &&& #[trigger] state.ends_at(at)
                &&& error->0 == if state.meeting.engine_out[at] is MeetingDestroyed {
                    Error::MeetingDestroyed
                } else {
                    Error::ChannelClosed
                }
                &&& after == state.after_end(at)
            };
        assert(state.ends_with(at));
        assert(state.meeting.engine_out[at] is MeetingDestroyed);
    }
}

/// Sending that fails has lost nothing: of all that the peers wrote, the first packets went out,
/// the next one is the first that a machine refused, and those behind it wait where they were.
pub proof fn law_failed_sending_keeps_the_rest<Ch, R, S, D, F>(
    before: EngineMeetingView<Ch, R, S, D, F>,
    after: EngineMeetingView<Ch, R, S, D, F>,
    error: Option<Error>,
)
    requires
        before.sends(after, error),
        error is Some,
    ensures
        error == Some(Error::ChannelClosed),
        exists|sent: Seq<RoutedFrameView>, frame: RoutedFrameView|
            {
                &&& all_taken(before.engines, sent)
                &&& refused(before.engines, None, frame)
                &&& all_written(before.peers) == #[trigger] sent.push(frame) + all_written(
                    after.peers,
                )
            },
        after.meeting == before.meeting,
        after.peers.len() == before.peers.len(),
{
    let (peer, place, count) = choose|peer: int, place: int, count: int|
        {
            &&& #[trigger] sending_stuck_at(before.engines, before.peers, peer, place, count)
            &&& after == before.after_stuck_sending(peer, place, count)
        };
    let peer_id = before.peers[peer].1.info.peer_id;
    let receivers = before.peers[peer].1.receivers;
    let earlier = all_written(before.peers.take(peer));
    let some = frames_before(peer_id, receivers, place, count);
    let frame = frame_at(peer_id, receivers, place, count);
    law_peers_left_and_sent_make_all(before.peers, peer, place, count + 1);
    law_left_and_sent_make_all(peer_id, receivers, place, count);
    let sent = earlier + some;
    assert(sent.push(frame) =~= earlier + some.push(frame));
    assert(all_taken(before.engines, sent)) by {
        assert forall|x: int| 0 <= x < sent.len() implies !refused(
            before.engines,
            None,
            #[trigger] sent[x],
        ) by {
            if x < earlier.len() {
                assert(sent[x] == earlier[x]);
            } else {
                assert(sent[x] == some[x - earlier.len()]);
            }
        }
    }
    assert(all_written(before.peers) == sent.push(frame) + all_written(after.peers));
}

/// Taking in frames that fails stops at the first frame that a machine does not take: that frame
/// is gone, frames behind it wait in the inboxes where they were, and those before it are taken.
pub proof fn law_failed_receiving_keeps_the_rest<Ch, R, S, D, F>(
    before: EngineMeetingView<Ch, R, S, D, F>,
    after: EngineMeetingView<Ch, R, S, D, F>,
    error: Option<Error>,
)
    requires
        before.receives(after, error),
        error is Some,
    ensures
        error == Some(Error::ChannelClosed),
        after.engines.len() == before.engines.len(),
        exists|place: int, count: int|
            {
                &&& 0 <= place < before.engines.len()
                &&& 0 <= count < before.engines[place].1.inbox.len()
                &&& refused(
                    before.engines,
                    Some(before.engines[place].0),
                    #[trigger] before.engines[place].1.inbox[count],
                )
                &&& after.engines[place].1.inbox == before.engines[place].1.inbox.skip(count + 1)
                &&& forall|k: int|
                    0 <= k < place ==> (#[trigger] after.engines[k]).1.inbox.len() == 0
                &&& forall|k: int|
                    place < k < before.engines.len() ==> (#[trigger] after.engines[k]).1.inbox
                        == before.engines[k].1.inbox
            },
{
    let (place, count) = choose|place: int, count: int|
        {
            &&& #[trigger] before.receiving_stuck_at(place, count)
            &&& after == before.after_stuck_receiving(place, count)
        };
    let state = before.while_receiving(before.taken_in(place, count), place, count + 1);
    let frame = before.engines[place].1.inbox[count];
    assert(state.engines.len() == before.engines.len());
    assert forall|k: int| 0 <= k < before.engines.len() implies after.engines.len()
        == before.engines.len() && (#[trigger] after.engines[k]).1.inbox
        == state.engines[k].1.inbox by {
        law_spread_up_to_the_first_gone(state.engines, Some(before.engines[place].0), frame, k);
    }
    if before.engines.len() > 0 {
        law_spread_up_to_the_first_gone(state.engines, Some(before.engines[place].0), frame, 0);
    }
    assert(after.engines[place].1.inbox == state.engines[place].1.inbox);
    assert(before.engines[place].1.inbox[count] == frame);
}

} // verus!
