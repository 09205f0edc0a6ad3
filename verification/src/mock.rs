//! A network within one process, on which frames get lost and take their time.

use std::collections::VecDeque;
use vstd::prelude::*;

use crate::channel::Pump;
use crate::engine::{
    all_cleared, all_written, announced, announcement, collect_all_packets, deliver, event_warning,
    event_warnings, frame_views, frame_warning, frame_warnings, frames_of,
    lemma_control_changes_no_peer, lemma_one_more_frame, lemma_peers_with, lemma_peers_with_push,
    peers_settled, peers_told, peers_with, told, told_by, DescriptorView, EngineId,
    EngineMeetingConfig, EnginePeerDescriptor, EngineWarning,
};
use crate::error::Error;
use crate::meeting::{EngineEventView, Meeting, MeetingEngineEvent, MeetingView};
use crate::ordered_map::{
    has_key, keys_ascend, lemma_same_keys, lemma_viewed, lemma_viewed_update, value_of, viewed,
    with_value, without_key, OrderedMap,
};
use crate::peer::{takes_every_builder, PeerBuilder, PeerFactory, PeerInfo};
use crate::protocol::{ProtocolControlFrame, RoutedFrame, RoutedFrameView};
use crate::wire::failure;
use crate::wiring::{all_carried, carry_all};

verus! {

broadcast use vstd::std_specs::vecdeque::group_vec_dequeue_axioms;

/// How long frames from a port are on their way: `base_latency`, and something between
/// `latency_start` and `latency_end` on top, unless that leaves no choice. In nanoseconds.
#[derive(Debug, Clone, Copy, PartialEq, Eq, Structural)]
pub struct MockNetworkPortConfig {
    pub base_latency: u64,
    pub latency_start: u64,
    pub latency_end: u64,
}

/// `rand::random_range` on a range of `u64` that does not hold its end: some number of the
/// range, picked at random.
#[verifier::external_body]
fn random_between(start: u64, end: u64) -> (result: u64)
    requires
        start < end,
    ensures
        start <= result < end,
{
    rand::random_range(start..end)
}

impl MockNetworkPortConfig {
    /// Whether every latency can be told.
    pub open spec fn fits(self) -> bool {
        self.base_latency + self.latency_end <= u64::MAX
    }

    /// Whether there is no choice about latency.
    pub open spec fn is_fixed(self) -> bool {
        self.latency_start >= self.latency_end
    }

    /// Whether a frame can be on its way for that long.
    pub open spec fn allows(self, delay: u64) -> bool {
        if self.is_fixed() {
            delay == self.base_latency
        } else {
            self.base_latency + self.latency_start <= delay < self.base_latency + self.latency_end
        }
    }

    /// Whether picking a latency at random can give that: `base_latency`, with what was drawn
    /// on top, if there is a choice.
    pub closed spec fn draws(self, latency: u64) -> bool {
        if self.is_fixed() {
            latency == self.base_latency
        } else {
            exists|drawn: u64| #[trigger]
                call_ensures(random_between, (self.latency_start, self.latency_end), drawn)
                    && latency == self.base_latency + drawn
        }
    }

    /// What can be drawn, a frame can be on its way for.
    pub proof fn law_drawn_is_allowed(self, latency: u64)
        requires
            self.draws(latency),
        ensures
            self.allows(latency),
    {
    }

    /// The latency for what was drawn between `latency_start` and `latency_end`.
    pub fn latency_for(&self, drawn: u64) -> (result: u64)
        requires
            self.fits(),
            !self.is_fixed() ==> self.latency_start <= drawn < self.latency_end,
        ensures
            result == if self.is_fixed() {
                self.base_latency as int
            } else {
                self.base_latency + drawn
            },
            self.allows(result),
    {
        if self.latency_start >= self.latency_end {
            self.base_latency
        } else {
            self.base_latency + drawn
        }
    }

    /// A latency, picked at random.
    pub fn latency(&self) -> (result: u64)
        requires
            self.fits(),
        ensures
            self.draws(result),
            self.allows(result),
    {
        if self.latency_start >= self.latency_end {
            self.latency_for(0)
        } else {
            let drawn: u64 = random_between(self.latency_start, self.latency_end);
            self.latency_for(drawn)
        }
    }
}

impl Default for MockNetworkPortConfig {
    fn default() -> (result: Self)
        ensures
            result == (MockNetworkPortConfig {
                base_latency: 0,
                latency_start: 0,
                latency_end: 0,
            }),
    {
        MockNetworkPortConfig { base_latency: 0, latency_start: 0, latency_end: 0 }
    }
}

/// The end of a network that a machine holds.
pub struct MockNetworkPort {
    /// Control frames from the network.
    pub control_in: VecDeque<RoutedFrame>,
    /// Packets from the network.
    pub packet_in: VecDeque<RoutedFrame>,
    /// Control frames for the network.
    pub control_out: VecDeque<RoutedFrame>,
    /// Packets for the network.
    pub packet_out: VecDeque<RoutedFrame>,
}

/// What a [`MockNetworkPort`] holds.
#[verifier::ext_equal]
pub struct PortView {
    pub control_in: Seq<RoutedFrameView>,
    pub packet_in: Seq<RoutedFrameView>,
    pub control_out: Seq<RoutedFrameView>,
    pub packet_out: Seq<RoutedFrameView>,
}

impl View for MockNetworkPort {
    type V = PortView;

    open spec fn view(&self) -> PortView {
        PortView {
            control_in: frame_views(self.control_in@),
            packet_in: frame_views(self.packet_in@),
            control_out: frame_views(self.control_out@),
            packet_out: frame_views(self.packet_out@),
        }
    }
}

impl PortView {
    /// Nothing on its way in either direction.
    pub open spec fn idle() -> Self {
        PortView {
            control_in: Seq::empty(),
            packet_in: Seq::empty(),
            control_out: Seq::empty(),
            packet_out: Seq::empty(),
        }
    }
}

impl MockNetworkPort {
    pub fn new() -> (result: Self)
        ensures
            result@ == PortView::idle(),
    {
        let result = MockNetworkPort {
            control_in: VecDeque::new(),
            packet_in: VecDeque::new(),
            control_out: VecDeque::new(),
            packet_out: VecDeque::new(),
        };
        assert(result@ =~= PortView::idle());
        result
    }
}

impl Default for MockNetworkPort {
    fn default() -> (result: Self)
        ensures
            result@ == PortView::idle(),
    {
        MockNetworkPort::new()
    }
}

/// Moves all frames of one queue to the end of another.
fn move_frames(from: &mut VecDeque<RoutedFrame>, to: &mut VecDeque<RoutedFrame>)
    ensures
        frame_views(final(from)@) == Seq::<RoutedFrameView>::empty(),
        frame_views(final(to)@) == frame_views(old(to)@) + frame_views(old(from)@),
{
    let ghost first = to@;
    let ghost second = from@;
    to.append(from);
    assert(frame_views(from@) =~= Seq::<RoutedFrameView>::empty());
    assert(frame_views(to@) =~= frame_views(first) + frame_views(second));
}

/// A frame that waits at a port.
pub struct MockNetworkMessage {
    /// How long it still is on its way.
    pub delay: u64,
    /// Whether it is a control frame.
    pub control: bool,
    pub frame: RoutedFrame,
}

/// What a [`MockNetworkMessage`] holds.
#[verifier::ext_equal]
pub struct MessageView {
    pub delay: u64,
    pub control: bool,
    pub frame: RoutedFrameView,
}

impl View for MockNetworkMessage {
    type V = MessageView;

    open spec fn view(&self) -> MessageView {
        MessageView { delay: self.delay, control: self.control, frame: self.frame@ }
    }
}

/// What messages hold, one by one.
pub open spec fn message_views(messages: Seq<MockNetworkMessage>) -> Seq<MessageView> {
    messages.map_values(|message: MockNetworkMessage| message@)
}

/// The end of a port that the network holds.
pub struct MockNetworkPortNode {
    from_control: VecDeque<RoutedFrame>,
    from_packet: VecDeque<RoutedFrame>,
    to_control: VecDeque<RoutedFrame>,
    to_packet: VecDeque<RoutedFrame>,
    mailbox: VecDeque<MockNetworkMessage>,
    config: MockNetworkPortConfig,
}

/// What a [`MockNetworkPortNode`] holds.
#[verifier::ext_equal]
pub struct NodeView {
    /// Control frames from the machine.
    pub from_control: Seq<RoutedFrameView>,
    /// Packets from the machine.
    pub from_packet: Seq<RoutedFrameView>,
    /// Control frames for the machine.
    pub to_control: Seq<RoutedFrameView>,
    /// Packets for the machine.
    pub to_packet: Seq<RoutedFrameView>,
    /// Frames on their way to the machine.
    pub mailbox: Seq<MessageView>,
    pub config: MockNetworkPortConfig,
}

impl View for MockNetworkPortNode {
    type V = NodeView;

    closed spec fn view(&self) -> NodeView {
        NodeView {
            from_control: frame_views(self.from_control@),
            from_packet: frame_views(self.from_packet@),
            to_control: frame_views(self.to_control@),
            to_packet: frame_views(self.to_packet@),
            mailbox: message_views(self.mailbox@),
            config: self.config,
        }
    }
}

impl NodeView {
    /// A port that just opened.
    pub open spec fn fresh(config: MockNetworkPortConfig) -> Self {
        NodeView {
            from_control: Seq::empty(),
            from_packet: Seq::empty(),
            to_control: Seq::empty(),
            to_packet: Seq::empty(),
            mailbox: Seq::empty(),
            config,
        }
    }
}

/// A frame that the network took from a port.
pub struct MockSent {
    /// The port.
    pub source: u64,
    /// Whether it is a control frame.
    pub control: bool,
    pub frame: RoutedFrame,
    /// How long frames from the port are on their way.
    pub config: MockNetworkPortConfig,
}

/// What a [`MockSent`] holds.
#[verifier::ext_equal]
pub struct SentView {
    pub source: u64,
    pub control: bool,
    pub frame: RoutedFrameView,
    pub config: MockNetworkPortConfig,
}

impl View for MockSent {
    type V = SentView;

    open spec fn view(&self) -> SentView {
        SentView {
            source: self.source,
            control: self.control,
            frame: self.frame@,
            config: self.config,
        }
    }
}

/// What taken frames hold, one by one.
pub open spec fn sent_views(frames: Seq<MockSent>) -> Seq<SentView> {
    frames.map_values(|sent: MockSent| sent@)
}

/// Frames as they are taken from a port.
pub open spec fn sent_through(
    source: u64,
    control: bool,
    frames: Seq<RoutedFrameView>,
    config: MockNetworkPortConfig,
) -> Seq<SentView> {
    Seq::new(frames.len(), |i: int| SentView { source, control, frame: frames[i], config })
}

/// All frames from a machine: control frames first.
pub open spec fn sent_from(source: u64, node: NodeView) -> Seq<SentView> {
    sent_through(source, true, node.from_control, node.config) + sent_through(
        source,
        false,
        node.from_packet,
        node.config,
    )
}

/// All frames from all machines, in the order of the ports.
pub open spec fn all_sent(nodes: Seq<(u64, NodeView)>) -> Seq<SentView>
    decreases nodes.len(),
{
    if nodes.len() == 0 {
        Seq::empty()
    } else {
        all_sent(nodes.drop_last()) + sent_from(nodes.last().0, nodes.last().1)
    }
}

/// The ports once all frames from machines were taken.
pub open spec fn all_taken(nodes: Seq<(u64, NodeView)>) -> Seq<(u64, NodeView)> {
    Seq::new(
        nodes.len(),
        |k: int|
            (
                nodes[k].0,
                NodeView {
                    from_control: Seq::empty(),
                    from_packet: Seq::empty(),
                    ..nodes[k].1
                },
            ),
    )
}

/// The messages for the port under `key`: what came from other ports and is not lost.
pub open spec fn mailed(sent: Seq<SentView>, fates: Seq<Option<u64>>, key: u64) -> Seq<MessageView>
    decreases sent.len(),
{
    if sent.len() == 0 || fates.len() == 0 {
        Seq::empty()
    } else {
        let before = mailed(sent.drop_last(), fates.drop_last(), key);
        match fates.last() {
            Some(delay) => if sent.last().source != key {
                before.push(
                    MessageView {
                        delay,
                        control: sent.last().control,
                        frame: sent.last().frame,
                    },
                )
            } else {
                before
            },
            None => before,
        }
    }
}

/// How long something still takes after a while.
pub open spec fn still(delay: u64, elapsed: u64) -> u64 {
    if delay <= elapsed {
        0
    } else {
        (delay - elapsed) as u64
    }
}

/// The frames that arrive after a while.
pub open spec fn due(mailbox: Seq<MessageView>, elapsed: u64, control: bool) -> Seq<RoutedFrameView>
    decreases mailbox.len(),
{
    if mailbox.len() == 0 {
        Seq::empty()
    } else {
        let before = due(mailbox.drop_last(), elapsed, control);
        if mailbox.last().control == control && still(mailbox.last().delay, elapsed) == 0 {
            before.push(mailbox.last().frame)
        } else {
            before
        }
    }
}

/// The messages that do not arrive yet after a while.
pub open spec fn pending(mailbox: Seq<MessageView>, elapsed: u64) -> Seq<MessageView>
    decreases mailbox.len(),
{
    if mailbox.len() == 0 {
        Seq::empty()
    } else {
        let before = pending(mailbox.drop_last(), elapsed);
        let left = still(mailbox.last().delay, elapsed);
        if left == 0 {
            before
        } else {
            before.push(MessageView { delay: left, ..mailbox.last() })
        }
    }
}

/// A port after messages came for it and a while passed.
pub open spec fn served(node: NodeView, messages: Seq<MessageView>, elapsed: u64) -> NodeView {
    let mailbox = node.mailbox + messages;
    NodeView {
        to_control: node.to_control + due(mailbox, elapsed, true),
        to_packet: node.to_packet + due(mailbox, elapsed, false),
        mailbox: pending(mailbox, elapsed),
        ..node
    }
}

/// The ports after the network spread frames and a while passed.
pub open spec fn all_served(
    nodes: Seq<(u64, NodeView)>,
    sent: Seq<SentView>,
    fates: Seq<Option<u64>>,
    elapsed: u64,
) -> Seq<(u64, NodeView)> {
    Seq::new(
        nodes.len(),
        |k: int| (nodes[k].0, served(nodes[k].1, mailed(sent, fates, nodes[k].0), elapsed)),
    )
}

/// Whether the network can tell every latency.
pub open spec fn all_fit(nodes: Seq<(u64, NodeView)>) -> bool {
    forall|k: int| 0 <= k < nodes.len() ==> (#[trigger] nodes[k]).1.config.fits()
}

/// All ports in the mock network broadcast messages to each other.
/// There is no directed connections between only pair of ports.
pub struct MockNetwork {
    nodes: OrderedMap<MockNetworkPortNode>,
}

impl View for MockNetwork {
    type V = Seq<(u64, NodeView)>;

    closed spec fn view(&self) -> Seq<(u64, NodeView)> {
        viewed(self.nodes@)
    }
}

impl MockNetworkPortNode {
    fn new(config: MockNetworkPortConfig) -> (result: Self)
        ensures
            result@ == NodeView::fresh(config),
    {
        let result = MockNetworkPortNode {
            from_control: VecDeque::new(),
            from_packet: VecDeque::new(),
            to_control: VecDeque::new(),
            to_packet: VecDeque::new(),
            mailbox: VecDeque::new(),
            config,
        };
        assert(result@ =~= NodeView::fresh(config));
        result
    }

    /// Takes all frames from the machine.
    fn collect(&mut self, source: u64, sent: &mut Vec<MockSent>)
        ensures
            final(self)@ == (NodeView {
                from_control: Seq::empty(),
                from_packet: Seq::empty(),
                ..old(self)@
            }),
            sent_views(final(sent)@) == sent_views(old(sent)@) + sent_from(source, old(self)@),
    {
        let ghost before = self@;
        let ghost first = sent_views(sent@);
        let config: MockNetworkPortConfig = self.config;
        take_frames(source, true, config, &mut self.from_control, sent);
        take_frames(source, false, config, &mut self.from_packet, sent);
        assert(sent_views(sent@) =~= first + sent_from(source, before));
        assert(self@ =~= (NodeView {
            from_control: Seq::empty(),
            from_packet: Seq::empty(),
            ..before
        }));
    }

    /// Puts messages into the mailbox: what came from other ports and is not lost.
    fn receive(&mut self, key: u64, sent: &Vec<MockSent>, fates: &Vec<Option<u64>>)
        requires
            sent@.len() == fates@.len(),
        ensures
            final(self)@ == (NodeView {
                mailbox: old(self)@.mailbox + mailed(sent_views(sent@), fates@, key),
                ..old(self)@
            }),
    {
        let ghost before = self@;
        let ghost all = sent_views(sent@);
        let mut i: usize = 0;
        assert(self@.mailbox =~= before.mailbox + mailed(all.take(0), fates@.take(0), key));
        while i < sent.len()
            invariant
                before == old(self)@,
                all == sent_views(sent@),
                sent@.len() == fates@.len(),
                i <= sent@.len(),
                self@ == (NodeView {
                    mailbox: before.mailbox + mailed(
                        all.take(i as int),
                        fates@.take(i as int),
                        key,
                    ),
                    ..before
                }),
            decreases sent@.len() - i,
        {
            let ghost state = self@;
            let ghost letters = self.mailbox@;
            assert(all.take(i + 1).drop_last() =~= all.take(i as int));
            assert(fates@.take(i + 1).drop_last() =~= fates@.take(i as int));
            assert(all.take(i + 1).last() == sent@[i as int]@);
            if let Some(delay) = fates[i] {
                if sent[i].source != key {
                    self.mailbox.push_back(
                        MockNetworkMessage {
                            delay,
                            control: sent[i].control,
                            frame: sent[i].frame.copy(),
                        },
                    );
                    assert(message_views(self.mailbox@) =~= message_views(letters).push(
                        MessageView { delay, control: all[i as int].control, frame: all[i as int].frame },
                    ));
                }
            }
            assert(self@.mailbox =~= before.mailbox + mailed(
                all.take(i + 1),
                fates@.take(i + 1),
                key,
            ));
            i = i + 1;
        }
        assert(all.take(i as int) =~= all);
        assert(fates@.take(i as int) =~= fates@);
    }

    /// Lets a while pass: what arrives goes to the machine.
    fn forward(&mut self, elapsed: u64)
        ensures
            final(self)@ == served(old(self)@, Seq::empty(), elapsed),
    {
        let ghost before = self@;
        let mut queue: VecDeque<MockNetworkMessage> = VecDeque::new();
        let mut remaining: VecDeque<MockNetworkMessage> = VecDeque::new();
        std::mem::swap(&mut queue, &mut self.mailbox);
        let ghost all = message_views(queue@);
        let ghost held = queue@;
        let total: usize = queue.len();
        let mut i: usize = 0;
        assert(before.mailbox + Seq::<MessageView>::empty() =~= all);
        assert(queue@ =~= held.skip(0));
        assert(self@.to_control =~= before.to_control + due(all.take(0), elapsed, true));
        assert(self@.to_packet =~= before.to_packet + due(all.take(0), elapsed, false));
        assert(message_views(remaining@) =~= pending(all.take(0), elapsed));
        while i < total
            invariant
                i <= total,
                total == held.len(),
                all == message_views(held),
                queue@ == held.skip(i as int),
                self@.from_control == before.from_control,
                self@.from_packet == before.from_packet,
                self@.config == before.config,
                self@.to_control == before.to_control + due(all.take(i as int), elapsed, true),
                self@.to_packet == before.to_packet + due(all.take(i as int), elapsed, false),
                message_views(remaining@) == pending(all.take(i as int), elapsed),
            decreases total - i,
        {
            let ghost state = self@;
            let ghost kept = remaining@;
            assert(all.take(i + 1).drop_last() =~= all.take(i as int));
            assert(all.take(i + 1).last() == held[i as int]@);
            if let Some(mut letter) = queue.pop_front() {
                let ghost said = letter@;
                assert(said == all[i as int]);
                letter.delay = letter.delay.saturating_sub(elapsed);
                assert(letter.delay == still(said.delay, elapsed));
                if letter.delay == 0 {
                    if letter.control {
                        let ghost frames = self.to_control@;
                        self.to_control.push_back(letter.frame);
                        assert(frame_views(self.to_control@) =~= frame_views(frames).push(
                            said.frame,
                        ));
                    } else {
                        let ghost frames = self.to_packet@;
                        self.to_packet.push_back(letter.frame);
                        assert(frame_views(self.to_packet@) =~= frame_views(frames).push(
                            said.frame,
                        ));
                    }
                } else {
                    remaining.push_back(letter);
                    assert(message_views(remaining@) =~= message_views(kept).push(
                        MessageView { delay: still(said.delay, elapsed), ..said },
                    ));
                }
            }
            assert(queue@ =~= held.skip(i + 1));
            assert(self@.to_control =~= before.to_control + due(all.take(i + 1), elapsed, true));
            assert(self@.to_packet =~= before.to_packet + due(all.take(i + 1), elapsed, false));
            assert(message_views(remaining@) =~= pending(all.take(i + 1), elapsed));
            i = i + 1;
        }
        assert(all.take(i as int) =~= all);
        self.mailbox = remaining;
        assert(self@ =~= served(before, Seq::empty(), elapsed));
    }
}

/// Takes all frames of a queue.
fn take_frames(
    source: u64,
    control: bool,
    config: MockNetworkPortConfig,
    queue: &mut VecDeque<RoutedFrame>,
    sent: &mut Vec<MockSent>,
)
    ensures
        frame_views(final(queue)@) == Seq::<RoutedFrameView>::empty(),
        sent_views(final(sent)@) == sent_views(old(sent)@) + sent_through(
            source,
            control,
            frame_views(old(queue)@),
            config,
        ),
{
    let ghost first = sent_views(sent@);
    let ghost held = queue@;
    let ghost frames = frame_views(held);
    let total: usize = queue.len();
    let mut i: usize = 0;
    assert(queue@ =~= held.skip(0));
    assert(sent_views(sent@) =~= first + sent_through(source, control, frames.take(0), config));
    while i < total
        invariant
            i <= total,
            total == held.len(),
            frames == frame_views(held),
            queue@ == held.skip(i as int),
            sent_views(sent@) == first + sent_through(source, control, frames.take(i as int), config),
        decreases total - i,
    {
        let ghost earlier = sent@;
        if let Some(frame) = queue.pop_front() {
            assert(frame@ == frames[i as int]);
            sent.push(MockSent { source, control, frame, config });
            assert(sent_views(sent@) =~= sent_views(earlier).push(
                SentView { source, control, frame: frames[i as int], config },
            ));
        }
        assert(queue@ =~= held.skip(i + 1));
        assert(sent_views(sent@) =~= first + sent_through(
            source,
            control,
            frames.take(i + 1),
            config,
        ));
        i = i + 1;
    }
    assert(frames.take(i as int) =~= frames);
    assert(frame_views(queue@) =~= Seq::<RoutedFrameView>::empty());
}

/// Picks what becomes of each taken frame: `lost` says which are lost, the others are on their
/// way for as long as their port has it.
pub fn draw_fates(sent: &Vec<MockSent>, lost: &Vec<bool>) -> (result: Vec<Option<u64>>)
    requires
        sent@.len() == lost@.len(),
        forall|i: int| 0 <= i < sent@.len() ==> (#[trigger] sent@[i]).config.fits(),
    ensures
        result@.len() == sent@.len(),
        forall|i: int|
            #![trigger result@[i]]
            #![trigger lost@[i]]
            0 <= i < sent@.len() ==> match result@[i] {
                Some(delay) => !lost@[i] && sent@[i].config.draws(delay)
                    && sent@[i].config.allows(delay),
                None => lost@[i],
            },
{
    let mut result: Vec<Option<u64>> = Vec::new();
    let mut i: usize = 0;
    while i < sent.len()
        invariant
            i <= sent@.len(),
            sent@.len() == lost@.len(),
            result@.len() == i,
            forall|k: int| 0 <= k < sent@.len() ==> (#[trigger] sent@[k]).config.fits(),
            forall|k: int|
                #![trigger result@[k]]
                #![trigger lost@[k]]
                0 <= k < i ==> match result@[k] {
                    Some(delay) => !lost@[k] && sent@[k].config.draws(delay)
                        && sent@[k].config.allows(delay),
                    None => lost@[k],
                },
        decreases sent@.len() - i,
    {
        assert(sent@[i as int].config.fits());
        if lost[i] {
            result.push(None);
        } else {
            result.push(Some(sent[i].config.latency()));
        }
        i = i + 1;
    }
    result
}

impl MockNetwork {
    /// A network without ports.
    pub fn new() -> (result: Self)
        ensures
            result@ == Seq::<(u64, NodeView)>::empty(),
    {
        let result = MockNetwork { nodes: OrderedMap::new() };
        assert(result@ =~= Seq::<(u64, NodeView)>::empty());
        result
    }

    /// Opens a port. One that was open under `id` is forgotten.
    pub fn open_port(&mut self, id: u64, config: MockNetworkPortConfig)
        ensures
            final(self)@ == with_value(old(self)@, id, NodeView::fresh(config)),
    {
        let node = MockNetworkPortNode::new(config);
        let _known: usize = self.nodes.len();
        proof {
            lemma_viewed(self.nodes@, id, node);
        }
        self.nodes.insert(id, node);
    }

    /// Closes a port.
    pub fn close_port(&mut self, id: u64)
        ensures
            final(self)@ == without_key(old(self)@, id),
    {
        let ghost before = self.nodes@;
        let _known: usize = self.nodes.len();
        let removed = self.nodes.remove(id);
        proof {
            lemma_same_keys(before, viewed(before), id);
            if let Some(node) = removed {
                lemma_viewed(before, id, node);
            }
        }
    }

    /// Changes how long frames from a port are on their way.
    pub fn reconfigure_port(&mut self, id: u64, config: MockNetworkPortConfig)
        ensures
            final(self)@ == (match value_of(old(self)@, id) {
                Some(node) => with_value(old(self)@, id, NodeView { config, ..node }),
                None => old(self)@,
            }),
    {
        let ghost before = self@;
        let ghost entries = self.nodes@;
        let (place, found): (usize, bool) = self.nodes.find(id);
        proof {
            lemma_same_keys(entries, before, id);
        }
        if found {
            let node = self.nodes.value_mut(place);
            let ghost held = node@;
            node.config = config;
            assert(node@ =~= (NodeView { config, ..held }));
            proof {
                lemma_viewed_update(entries, place as int, *node);
            }
            assert(self@ =~= with_value(before, id, node@));
        }
    }

    /// Exchanges frames with the machine that holds a port. Says whether the port is open.
    pub fn exchange(&mut self, id: u64, port: &mut MockNetworkPort) -> (result: bool)
        ensures
            result == has_key(old(self)@, id),
            match value_of(old(self)@, id) {
                Some(node) => {
                    &&& final(port)@ == (PortView {
                        control_in: old(port)@.control_in + node.to_control,
                        packet_in: old(port)@.packet_in + node.to_packet,
                        control_out: Seq::empty(),
                        packet_out: Seq::empty(),
                    })
                    &&& final(self)@ == with_value(
                        old(self)@,
                        id,
                        NodeView {
                            from_control: node.from_control + old(port)@.control_out,
                            from_packet: node.from_packet + old(port)@.packet_out,
                            to_control: Seq::empty(),
                            to_packet: Seq::empty(),
                            ..node
                        },
                    )
                },
                None => final(port)@ == old(port)@ && final(self)@ == old(self)@,
            },
    {
        let ghost before = self@;
        let ghost entries = self.nodes@;
        let ghost end = port@;
        let (place, found): (usize, bool) = self.nodes.find(id);
        proof {
            lemma_same_keys(entries, before, id);
        }
        if found {
            let node = self.nodes.value_mut(place);
            let ghost held = node@;
            move_frames(&mut port.control_out, &mut node.from_control);
            move_frames(&mut port.packet_out, &mut node.from_packet);
            move_frames(&mut node.to_control, &mut port.control_in);
            move_frames(&mut node.to_packet, &mut port.packet_in);
            assert(node@ =~= (NodeView {
                from_control: held.from_control + end.control_out,
                from_packet: held.from_packet + end.packet_out,
                to_control: Seq::empty(),
                to_packet: Seq::empty(),
                ..held
            }));
            assert(port@ =~= (PortView {
                control_in: end.control_in + held.to_control,
                packet_in: end.packet_in + held.to_packet,
                control_out: Seq::empty(),
                packet_out: Seq::empty(),
            }));
            proof {
                lemma_viewed_update(entries, place as int, *node);
            }
            assert(self@ =~= with_value(before, id, node@));
        }
        found
    }

    /// Takes all frames that machines sent, in the order of the ports, control frames of a port
    /// first.
    pub fn collect(&mut self) -> (result: Vec<MockSent>)
        ensures
            sent_views(result@) == all_sent(old(self)@),
            final(self)@ == all_taken(old(self)@),
            all_fit(old(self)@) ==> all_fit(final(self)@) && forall|i: int|
                0 <= i < result@.len() ==> (#[trigger] result@[i]).config.fits(),
    {
        let ghost before = self@;
        let mut sent: Vec<MockSent> = Vec::new();
        let total: usize = self.nodes.len();
        let mut i: usize = 0;
        assert(sent_views(sent@) =~= all_sent(before.take(0)));
        while i < total
            invariant
                before == old(self)@,
                i <= total,
                total == before.len(),
                total == self.nodes@.len(),
                forall|k: int|
                    #![trigger viewed(self.nodes@)[k]]
                    #![trigger before[k]]
                    0 <= k < i ==> viewed(self.nodes@)[k] == all_taken(before)[k],
                forall|k: int|
                    #![trigger viewed(self.nodes@)[k]]
                    #![trigger before[k]]
                    i <= k < total ==> viewed(self.nodes@)[k] == before[k],
                sent_views(sent@) == all_sent(before.take(i as int)),
            decreases total - i,
        {
            let ghost entries = self.nodes@;
            assert(viewed(entries)[i as int] == before[i as int]);
            let key: u64 = self.nodes.key(i);
            let node = self.nodes.value_mut(i);
            node.collect(key, &mut sent);
            proof {
                lemma_viewed_update(entries, i as int, *node);
            }
            assert(before.take(i + 1).drop_last() =~= before.take(i as int));
            i = i + 1;
        }
        assert(before.take(i as int) =~= before);
        assert(self@ =~= all_taken(before));
        proof {
            if all_fit(before) {
                assert forall|k: int| 0 <= k < self@.len() implies (
                #[trigger] self@[k]).1.config.fits() by {
                    assert(before[k].1.config.fits());
                }
                lemma_sent_fit(before);
                assert forall|k: int| 0 <= k < sent@.len() implies (
                #[trigger] sent@[k]).config.fits() by {
                    assert(sent_views(sent@)[k].config.fits());
                }
            }
        }
        sent
    }

    /// Spreads taken frames to all other ports, each with its fate: lost, or on its way for some
    /// time. Then lets a while pass: what arrives goes to the machines.
    pub fn distribute(&mut self, sent: Vec<MockSent>, fates: Vec<Option<u64>>, elapsed: u64)
        requires
            sent@.len() == fates@.len(),
        ensures
            final(self)@ == all_served(old(self)@, sent_views(sent@), fates@, elapsed),
            all_fit(old(self)@) ==> all_fit(final(self)@),
    {
        let ghost before = self@;
        let ghost after = all_served(before, sent_views(sent@), fates@, elapsed);
        let total: usize = self.nodes.len();
        let mut i: usize = 0;
        while i < total
            invariant
                before == old(self)@,
                after == all_served(before, sent_views(sent@), fates@, elapsed),
                sent@.len() == fates@.len(),
                i <= total,
                total == before.len(),
                total == self.nodes@.len(),
                forall|k: int|
                    #![trigger viewed(self.nodes@)[k]]
                    #![trigger before[k]]
                    0 <= k < i ==> viewed(self.nodes@)[k] == after[k],
                forall|k: int|
                    #![trigger viewed(self.nodes@)[k]]
                    #![trigger before[k]]
                    i <= k < total ==> viewed(self.nodes@)[k] == before[k],
            decreases total - i,
        {
            let ghost entries = self.nodes@;
            assert(viewed(entries)[i as int] == before[i as int]);
            let key: u64 = self.nodes.key(i);
            let node = self.nodes.value_mut(i);
            let ghost held = node@;
            node.receive(key, &sent, &fates);
            let ghost got = node@;
            assert(got.mailbox + Seq::<MessageView>::empty() =~= got.mailbox);
            node.forward(elapsed);
            assert(node@ =~= served(held, mailed(sent_views(sent@), fates@, key), elapsed));
            proof {
                lemma_viewed_update(entries, i as int, *node);
            }
            i = i + 1;
        }
        assert(self@ =~= after);
        assert(all_fit(before) ==> all_fit(after)) by {
            if all_fit(before) {
                assert forall|k: int| 0 <= k < after.len() implies (
                #[trigger] after[k]).1.config.fits() by {
                    assert(before[k].1.config.fits());
                }
            }
        }
    }
}

impl Default for MockNetwork {
    fn default() -> (result: Self)
        ensures
            result@ == Seq::<(u64, NodeView)>::empty(),
    {
        MockNetwork::new()
    }
}

proof fn lemma_sent_fit(nodes: Seq<(u64, NodeView)>)
    requires
        all_fit(nodes),
    ensures
        forall|i: int| 0 <= i < all_sent(nodes).len() ==> (#[trigger] all_sent(nodes)[i]).config.fits(),
    decreases nodes.len(),
{
    if nodes.len() > 0 {
        let rest = nodes.drop_last();
        assert forall|k: int| 0 <= k < rest.len() implies (#[trigger] rest[k]).1.config.fits() by {
            assert(nodes[k].1.config.fits());
        }
        lemma_sent_fit(rest);
        assert(nodes[nodes.len() - 1].1.config.fits());
        assert forall|i: int| 0 <= i < all_sent(nodes).len() implies (
        #[trigger] all_sent(nodes)[i]).config.fits() by {
            let first = all_sent(rest);
            if i < first.len() {
                assert(all_sent(nodes)[i] == first[i]);
            } else {
                assert(all_sent(nodes)[i] == sent_from(nodes.last().0, nodes.last().1)[i
                    - first.len()]);
            }
        }
    }
}

/// Nothing that a port sent comes back to it.
pub proof fn law_no_echo(sent: Seq<SentView>, fates: Seq<Option<u64>>, key: u64)
    requires
        forall|i: int| 0 <= i < sent.len() ==> (#[trigger] sent[i]).source == key,
    ensures
        mailed(sent, fates, key) == Seq::<MessageView>::empty(),
    decreases sent.len(),
{
    if sent.len() > 0 && fates.len() > 0 {
        assert(sent[sent.len() - 1].source == key);
        law_no_echo(sent.drop_last(), fates.drop_last(), key);
    }
}

/// A frame that is lost changes nothing for anybody.
pub proof fn law_lost_frames_are_gone(
    sent: Seq<SentView>,
    fates: Seq<Option<u64>>,
    frame: SentView,
    key: u64,
)
    requires
        sent.len() == fates.len(),
    ensures
        mailed(sent.push(frame), fates.push(None), key) == mailed(sent, fates, key),
{
    assert(sent.push(frame).drop_last() =~= sent);
    assert(fates.push(None).drop_last() =~= fates);
}

/// A frame that takes no time is at every other port before anything else happens.
pub proof fn law_frames_without_delay_arrive(
    node: NodeView,
    sent: Seq<SentView>,
    fates: Seq<Option<u64>>,
    frame: SentView,
    key: u64,
    elapsed: u64,
)
    requires
        sent.len() == fates.len(),
        frame.source != key,
    ensures
        served(node, mailed(sent.push(frame), fates.push(Some(0)), key), elapsed) == (NodeView {
            to_control: if frame.control {
                served(node, mailed(sent, fates, key), elapsed).to_control.push(frame.frame)
            } else {
                served(node, mailed(sent, fates, key), elapsed).to_control
            },
            to_packet: if frame.control {
                served(node, mailed(sent, fates, key), elapsed).to_packet
            } else {
                served(node, mailed(sent, fates, key), elapsed).to_packet.push(frame.frame)
            },
            ..served(node, mailed(sent, fates, key), elapsed)
        }),
{
    assert(sent.push(frame).drop_last() =~= sent);
    assert(fates.push(Some(0)).drop_last() =~= fates);
    let before = node.mailbox + mailed(sent, fates, key);
    let message = MessageView { delay: 0, control: frame.control, frame: frame.frame };
    let after = node.mailbox + mailed(sent.push(frame), fates.push(Some(0)), key);
    assert(after =~= before.push(message));
    assert(after.drop_last() =~= before);
    let one = served(node, mailed(sent.push(frame), fates.push(Some(0)), key), elapsed);
    let other = served(node, mailed(sent, fates, key), elapsed);
    if frame.control {
        assert(one.to_control =~= other.to_control.push(frame.frame));
    } else {
        assert(one.to_packet =~= other.to_packet.push(frame.frame));
    }
    assert(one =~= (NodeView {
        to_control: if frame.control {
            other.to_control.push(frame.frame)
        } else {
            other.to_control
        },
        to_packet: if frame.control {
            other.to_packet
        } else {
            other.to_packet.push(frame.frame)
        },
        ..other
    }));
}

/// What is pending after two whiles is what is pending after both at once: time that passes in
/// pieces is not lost.
pub proof fn law_time_adds_up(mailbox: Seq<MessageView>, first: u64, second: u64)
    requires
        first + second <= u64::MAX,
    ensures
        pending(pending(mailbox, first), second) == pending(mailbox, (first + second) as u64),
    decreases mailbox.len(),
{
    if mailbox.len() > 0 {
        law_time_adds_up(mailbox.drop_last(), first, second);
        let left = still(mailbox.last().delay, first);
        if left != 0 {
            let rest = pending(mailbox.drop_last(), first);
            let message = MessageView { delay: left, ..mailbox.last() };
            assert(rest.push(message).drop_last() =~= rest);
        }
    }
}

/// A meeting on a machine that reaches all others through one port.
pub struct MockMeeting<Ch, R, S, D, F> {
    pub meeting: Meeting<Ch, R, S, D, F>,
    pub peers: OrderedMap<EnginePeerDescriptor>,
    pub port: MockNetworkPort,
    /// Odd things that happened.
    pub warnings: Vec<EngineWarning>,
}

/// What a [`MockMeeting`] holds.
#[verifier::ext_equal]
pub struct MockMeetingView<Ch, R, S, D, F> {
    pub meeting: MeetingView<Ch, R, S, D, F>,
    pub peers: Seq<(u64, DescriptorView)>,
    pub port: PortView,
    pub warnings: Seq<EngineWarning>,
}

impl<Ch, R, S, D, F> View for MockMeeting<Ch, R, S, D, F> {
    type V = MockMeetingView<Ch, R, S, D, F>;

    open spec fn view(&self) -> MockMeetingView<Ch, R, S, D, F> {
        MockMeetingView {
            meeting: self.meeting@,
            peers: viewed(self.peers@),
            port: self.port@,
            warnings: self.warnings@,
        }
    }
}

/// Every odd thing is worth a warning.
pub open spec fn warn_of_all() -> EngineMeetingConfig {
    EngineMeetingConfig {
        warn_unhandled_control_frame: true,
        warn_duplicate_peer_creation: true,
        warn_unknown_peer_destruction: true,
        warn_unknown_peer_packet: true,
        warn_unknown_channel_packet: true,
        warn_unhandled_engine_event: true,
    }
}

/// How much of what a meeting told comes before it says that it is over.
pub open spec fn before_end(events: Seq<EngineEventView>) -> nat
    decreases events.len(),
{
    if events.len() == 0 || events[0] is MeetingDestroyed {
        0
    } else {
        1 + before_end(events.skip(1))
    }
}

impl<Ch, R, S, D, F> MockMeetingView<Ch, R, S, D, F> {
    /// Once frames from the port were told and delivered, control frames first.
    pub open spec fn after_receiving(self) -> Self {
        let frames = frames_of(0, self.port.control_in + self.port.packet_in);
        MockMeetingView {
            meeting: MeetingView {
                engine_in: self.meeting.engine_in + told(frames),
                ..self.meeting
            },
            peers: peers_with(self.peers, frames),
            port: PortView { control_in: Seq::empty(), packet_in: Seq::empty(), ..self.port },
            warnings: self.warnings + frame_warnings(warn_of_all(), self.peers, frames),
        }
    }

    /// Once packets from peers were sent to the port.
    pub open spec fn after_sending(self) -> Self {
        MockMeetingView {
            peers: all_cleared(self.peers),
            port: PortView {
                packet_out: self.port.packet_out + all_written(self.peers),
                ..self.port
            },
            ..self
        }
    }

    /// Once the machine took note of what the meeting told, up to where it says that it is over.
    /// What it told behind that is dropped.
    pub open spec fn after_settling(self) -> Self {
        let events = self.meeting.engine_out.take(before_end(self.meeting.engine_out) as int);
        MockMeetingView {
            meeting: MeetingView { engine_out: Seq::empty(), ..self.meeting },
            peers: peers_settled(self.peers, events),
            port: PortView {
                control_out: self.port.control_out + announced(self.peers, events),
                ..self.port
            },
            warnings: self.warnings + event_warnings(warn_of_all(), self.peers, events),
        }
    }

    /// Whether a meeting that turned into `meeting` and gave `moved` can leave `after`, or fail
    /// with `error`.
    pub open spec fn concluded(
        self,
        meeting: MeetingView<Ch, R, S, D, F>,
        moved: Result<bool, Error>,
        after: Self,
        error: Option<Error>,
    ) -> bool {
        let turned = MockMeetingView { meeting, ..self };
        match moved {
            Err(reason) => error == Some(reason) && after == turned,
            Ok(_) => error is None && after == turned.after_settling(),
        }
    }

    /// While frames from the port are being taken in: `frames` were.
    spec fn while_receiving(self, frames: Seq<(u64, RoutedFrameView)>) -> Self {
        MockMeetingView {
            meeting: MeetingView {
                engine_in: self.meeting.engine_in + told(frames),
                ..self.meeting
            },
            peers: peers_with(self.peers, frames),
            warnings: self.warnings + frame_warnings(warn_of_all(), self.peers, frames),
            ..self
        }
    }

    /// While the machine takes note of what the meeting told: `events` it did.
    spec fn while_settling(self, events: Seq<EngineEventView>, rest: Seq<EngineEventView>) -> Self {
        MockMeetingView {
            meeting: MeetingView { engine_out: rest, ..self.meeting },
            peers: peers_settled(self.peers, events),
            port: PortView {
                control_out: self.port.control_out + announced(self.peers, events),
                ..self.port
            },
            warnings: self.warnings + event_warnings(warn_of_all(), self.peers, events),
        }
    }
}

impl<Ch: Pump, R, S, D, F> MockMeetingView<Ch, R, S, D, F> where
    F: Fn(PeerBuilder<Ch, R, S, D>) -> Result<PeerBuilder<Ch, R, S, D>, Error>,
 {
    /// Whether carrying packets between the channels of peers and the ways to and from them can
    /// leave `after`.
    pub open spec fn carries(self, after: Self) -> bool {
        &&& all_carried(self.peers, self.meeting, after.peers, after.meeting)
        &&& after == (MockMeetingView { peers: after.peers, meeting: after.meeting, ..self })
    }

    /// Whether one round of work can leave `after`, or fail with `error`. What came through the
    /// port is in the channels when the meeting runs, and what channels wrote before is sent.
    pub open spec fn maintained(self, after: Self, error: Option<Error>) -> bool {
        exists|carried: Self|
            {
                &&& #[trigger] self.after_receiving().carries(carried)
                &&& carried.turns(after, error)
            }
    }

    /// Whether sending what peers wrote, running the meeting and telling others of peers that
    /// came and went can leave `after`, or fail with `error`.
    pub open spec fn turns(self, after: Self, error: Option<Error>) -> bool {
        let ready = self.after_sending();
        exists|meeting: MeetingView<Ch, R, S, D, F>, moved: Result<bool, Error>|
            {
                &&& ready.meeting.pumped_all(meeting, moved)
                &&& #[trigger] ready.concluded(meeting, moved, after, error)
            }
    }
}

proof fn lemma_before_end(events: Seq<EngineEventView>, count: int)
    requires
        0 <= count <= events.len(),
        forall|k: int| 0 <= k < count ==> !((#[trigger] events[k]) is MeetingDestroyed),
        count < events.len() ==> events[count] is MeetingDestroyed,
    ensures
        before_end(events) == count,
    decreases count,
{
    if count > 0 {
        assert(!(events[0] is MeetingDestroyed));
        assert forall|k: int| 0 <= k < count - 1 implies !((
        #[trigger] events.skip(1)[k]) is MeetingDestroyed) by {
            assert(events.skip(1)[k] == events[k + 1]);
        }
        lemma_before_end(events.skip(1), count - 1);
    }
}

impl<Ch: Pump, R, S, D, F> MockMeeting<Ch, R, S, D, F> where
    F: Fn(PeerBuilder<Ch, R, S, D>) -> Result<PeerBuilder<Ch, R, S, D>, Error>,
 {
    /// A meeting without peers.
    pub fn new(name: String, factory: PeerFactory<F, D>, port: MockNetworkPort) -> (result: Self)
        ensures
            result@ == (MockMeetingView::<Ch, R, S, D, F> {
                meeting: MeetingView {
                    factory: factory@,
                    engine_in: Seq::empty(),
                    engine_out: Seq::empty(),
                    user_in: Seq::empty(),
                    user_out: Seq::empty(),
                    engine_gone: false,
                    user_gone: false,
                    peers: Seq::empty(),
                    name: name@,
                },
                peers: Seq::empty(),
                port: port@,
                warnings: Seq::empty(),
            }),
    {
        let result = MockMeeting {
            meeting: Meeting::new(factory, name),
            peers: OrderedMap::new(),
            port,
            warnings: Vec::new(),
        };
        assert(result@.peers =~= Seq::<(u64, DescriptorView)>::empty());
        result
    }

    /// Tells the meeting about a frame, and delivers it.
    fn route(&mut self, frame: RoutedFrame)
        ensures
            final(self)@ == (MockMeetingView {
                meeting: MeetingView {
                    engine_in: match told_by(frame@) {
                        Some(event) => old(self)@.meeting.engine_in.push(event),
                        None => old(self)@.meeting.engine_in,
                    },
                    ..old(self)@.meeting
                },
                peers: peers_with(old(self)@.peers, seq![(0u64, frame@)]),
                warnings: match frame_warning(warn_of_all(), old(self)@.peers, 0, frame@) {
                    Some(warning) => old(self)@.warnings.push(warning),
                    None => old(self)@.warnings,
                },
                ..old(self)@
            }),
    {
        let ghost before = self@;
        let ghost said = frame@;
        match frame {
            RoutedFrame::Control(control) => {
                proof {
                    lemma_control_changes_no_peer(before.peers, 0, control);
                }
                match control {
                    ProtocolControlFrame::CreatePeer(peer_id, role_id) => {
                        self.meeting.push_engine_event(
                            MeetingEngineEvent::PeerJoined(peer_id, role_id),
                        );
                    },
                    ProtocolControlFrame::DestroyPeer(peer_id) => {
                        self.meeting.push_engine_event(MeetingEngineEvent::PeerLeft(peer_id));
                    },
                    ProtocolControlFrame::Heartbeat { .. } => {
                        self.warnings.push(EngineWarning::UnhandledControlFrame(0, control));
                    },
                }
            },
            RoutedFrame::Packet(peer_id, channel_id, packet) => {
                let (peer_known, channel_known): (bool, bool) = deliver(
                    &mut self.peers,
                    0,
                    peer_id,
                    channel_id,
                    packet,
                );
                if !peer_known {
                    self.warnings.push(EngineWarning::UnknownPeerPacket(0, peer_id));
                } else if !channel_known {
                    self.warnings.push(
                        EngineWarning::UnknownChannelPacket(0, peer_id, channel_id),
                    );
                }
            },
        }
        assert(self@ =~= (MockMeetingView {
            meeting: MeetingView {
                engine_in: match told_by(said) {
                    Some(event) => before.meeting.engine_in.push(event),
                    None => before.meeting.engine_in,
                },
                ..before.meeting
            },
            peers: peers_with(before.peers, seq![(0u64, said)]),
            warnings: match frame_warning(warn_of_all(), before.peers, 0, said) {
                Some(warning) => before.warnings.push(warning),
                None => before.warnings,
            },
            ..before
        }));
    }

    /// Takes in all frames from the port.
    fn receive(&mut self)
        ensures
            final(self)@ == old(self)@.after_receiving(),
    {
        let ghost before = self@;
        let _known: usize = self.peers.len();
        proof {
            lemma_same_keys(self.peers@, before.peers, 0);
        }
        let mut queue: VecDeque<RoutedFrame> = VecDeque::new();
        move_frames(&mut self.port.control_in, &mut queue);
        move_frames(&mut self.port.packet_in, &mut queue);
        let ghost held = queue@;
        let ghost frames = before.port.control_in + before.port.packet_in;
        assert(frame_views(held) =~= frames);
        let ghost start = self@;
        assert(start =~= (MockMeetingView {
            port: PortView { control_in: Seq::empty(), packet_in: Seq::empty(), ..before.port },
            ..before
        }));
        let total: usize = queue.len();
        let mut i: usize = 0;
        proof {
            lemma_nothing_received(start);
        }
        assert(frames_of(0, frames.take(0)) =~= Seq::<(u64, RoutedFrameView)>::empty());
        assert(queue@ =~= held.skip(0));
        while i < total
            invariant
                i <= total,
                total == held.len(),
                frames == frame_views(held),
                keys_ascend(start.peers),
                queue@ == held.skip(i as int),
                self@ == start.while_receiving(frames_of(0, frames.take(i as int))),
            decreases total - i,
        {
            let ghost state = self@;
            let ghost done = frames_of(0, frames.take(i as int));
            if let Some(frame) = queue.pop_front() {
                let ghost next = frame@;
                assert(next == frames[i as int]);
                self.route(frame);
                proof {
                    lemma_one_more_received(start, done, next);
                }
                assert(done.push((0u64, next)) =~= frames_of(0, frames.take(i + 1)));
            }
            assert(queue@ =~= held.skip(i + 1));
            i = i + 1;
        }
        assert(frames.take(i as int) =~= frames);
    }

    /// Takes note of one thing that the meeting told.
    fn take_note(&mut self, event: MeetingEngineEvent)
        ensures
            final(self)@ == (MockMeetingView {
                peers: peers_told(old(self)@.peers, event@),
                port: PortView {
                    control_out: match announcement(old(self)@.peers, event@) {
                        Some(frame) => old(self)@.port.control_out.push(frame),
                        None => old(self)@.port.control_out,
                    },
                    ..old(self)@.port
                },
                warnings: match event_warning(warn_of_all(), old(self)@.peers, event@) {
                    Some(warning) => old(self)@.warnings.push(warning),
                    None => old(self)@.warnings,
                },
                ..old(self)@
            }),
    {
        let ghost before = self@;
        let ghost sent = self.port.control_out@;
        let _known: usize = self.peers.len();
        match event {
            MeetingEngineEvent::MeetingDestroyed => {},
            MeetingEngineEvent::PeerCreated(descriptor) => {
                let info: PeerInfo = descriptor.info;
                proof {
                    lemma_viewed(self.peers@, info.peer_id.0, descriptor);
                }
                if !self.peers.contains_key(info.peer_id.0) {
                    if !info.remote {
                        self.port.control_out.push_back(
                            RoutedFrame::Control(
                                ProtocolControlFrame::CreatePeer(info.peer_id, info.role_id),
                            ),
                        );
                    }
                    self.peers.insert(info.peer_id.0, descriptor);
                } else {
                    self.warnings.push(EngineWarning::DuplicatePeerCreation(info.peer_id));
                }
            },
            MeetingEngineEvent::PeerDestroyed(peer_id) => {
                let ghost peers = self.peers@;
                proof {
                    lemma_same_keys(peers, viewed(peers), peer_id.0);
                }
                if self.peers.contains_key(peer_id.0) {
                    self.port.control_out.push_back(
                        RoutedFrame::Control(ProtocolControlFrame::DestroyPeer(peer_id)),
                    );
                    let removed = self.peers.remove(peer_id.0);
                    proof {
                        if let Some(descriptor) = removed {
                            lemma_viewed(peers, peer_id.0, descriptor);
                        }
                    }
                } else {
                    self.warnings.push(EngineWarning::UnknownPeerDestruction(peer_id));
                }
            },
            MeetingEngineEvent::PeerJoined(peer_id, _) => {
                self.warnings.push(EngineWarning::UnhandledEngineEvent(peer_id));
            },
            MeetingEngineEvent::PeerLeft(peer_id) => {
                self.warnings.push(EngineWarning::UnhandledEngineEvent(peer_id));
            },
        }
        assert(self@.port.control_out =~= match announcement(before.peers, event@) {
            Some(frame) => before.port.control_out.push(frame),
            None => before.port.control_out,
        });
        assert(self@ =~= (MockMeetingView {
            peers: peers_told(before.peers, event@),
            port: PortView { control_out: self@.port.control_out, ..before.port },
            warnings: match event_warning(warn_of_all(), before.peers, event@) {
                Some(warning) => before.warnings.push(warning),
                None => before.warnings,
            },
            ..before
        }));
    }

    /// Takes note of what the meeting told, up to where it says that it is over.
    fn settle(&mut self)
        ensures
            final(self)@ == old(self)@.after_settling(),
    {
        let ghost before = self@;
        let ghost events = before.meeting.engine_out;
        let mut over: bool = false;
        let ghost mut taken: int = 0;
        let ghost mut noted: int = 0;
        assert(events.skip(0) =~= events);
        assert(events.take(0) =~= Seq::<EngineEventView>::empty());
        assert(self@ =~= before.while_settling(events.take(0), events.skip(0)));
        loop
            invariant
                before == old(self)@,
                events == before.meeting.engine_out,
                0 <= noted <= taken <= events.len(),
                !over ==> noted == taken,
                over ==> noted < taken && events[noted] is MeetingDestroyed,
                forall|k: int| 0 <= k < noted ==> !((#[trigger] events[k]) is MeetingDestroyed),
                self@ == before.while_settling(events.take(noted), events.skip(taken)),
            decreases events.len() - taken,
        {
            let ghost state = self@;
            match self.meeting.take_engine_event() {
                None => {
                    assert(taken == events.len());
                    proof {
                        lemma_before_end(events, noted);
                    }
                    assert(events.skip(taken) =~= Seq::<EngineEventView>::empty());
                    return ;
                },
                Some(event) => {
                    assert(event@ == events[taken]);
                    assert(state.meeting.engine_out.skip(1) =~= events.skip(taken + 1));
                    assert(self@ =~= before.while_settling(
                        events.take(noted),
                        events.skip(taken + 1),
                    ));
                    if let MeetingEngineEvent::MeetingDestroyed = event {
                        over = true;
                    }
                    if !over {
                        let ghost earlier = self@;
                        self.take_note(event);
                        assert(events.take(noted + 1).drop_last() =~= events.take(noted));
                        assert(self@ =~= before.while_settling(
                            events.take(noted + 1),
                            events.skip(taken + 1),
                        ));
                        proof {
                            noted = noted + 1;
                        }
                    }
                    proof {
                        taken = taken + 1;
                    }
                },
            }
        }
    }

    /// One round of work: takes in what came through the port, carries packets to and from
    /// channels, sends what peers wrote, runs the meeting, and tells others of peers that came and went. After a failure the meeting is to
    /// be dropped.
    pub fn maintain(&mut self) -> (result: Result<(), Error>)
        requires
            takes_every_builder::<Ch, R, S, D, F>(old(self)@.meeting.factory),
        ensures
            old(self)@.maintained(final(self)@, failure(result)),
    {
        let ghost before = self@;
        self.receive();
        let ghost received = self@;
        carry_all(&mut self.peers, &mut self.meeting);
        let ghost told = self@;
        assert(received.carries(told));
        let frames: Vec<RoutedFrame> = collect_all_packets(&mut self.peers);
        let ghost written = frame_views(frames@);
        let ghost earlier = frame_views(self.port.packet_out@);
        let ghost port = self.port@;
        let ghost held = frames@;
        assert(earlier + written.take(0) =~= earlier);
        for frame in all: frames
            invariant
                all.seq() == held,
                written == frame_views(held),
                self.meeting@ == told.meeting,
                viewed(self.peers@) == all_cleared(told.peers),
                self.warnings@ == told.warnings,
                self.port@.control_in == port.control_in,
                self.port@.packet_in == port.packet_in,
                self.port@.control_out == port.control_out,
                self.port@.packet_out == earlier + written.take(all.index() as int),
        {
            let ghost queue = self.port.packet_out@;
            let ghost at = all.index() as int;
            self.port.packet_out.push_back(frame);
            assert(frame@ == written[at]);
            assert(frame_views(self.port.packet_out@) =~= frame_views(queue).push(written[at]));
            assert(self.port@.packet_out =~= earlier + written.take(at + 1));
        }
        assert(written.take(written.len() as int) =~= written);
        let ghost ready = self@;
        assert(ready =~= told.after_sending());
        let moved: Result<bool, Error> = self.meeting.pump_all();
        let ghost turned = self@;
        assert(turned =~= (MockMeetingView { meeting: turned.meeting, ..ready }));
        assert(ready.meeting.pumped_all(turned.meeting, moved));
        match moved {
            Err(error) => {
                assert(ready.concluded(turned.meeting, moved, self@, Some(error)));
                assert(told.turns(self@, Some(error)));
                Err(error)
            },
            Ok(_) => {
                self.settle();
                assert(ready.concluded(turned.meeting, moved, self@, None));
                assert(told.turns(self@, None));
                Ok(())
            },
        }
    }
}

proof fn lemma_nothing_received<Ch, R, S, D, F>(state: MockMeetingView<Ch, R, S, D, F>)
    ensures
        state.while_receiving(Seq::empty()) == state,
{
    let none = Seq::<(u64, RoutedFrameView)>::empty();
    let after = state.while_receiving(none);
    assert forall|i: int| 0 <= i < state.peers.len() implies #[trigger] after.peers[i]
        == state.peers[i] by {
        let senders = state.peers[i].1.senders;
        assert forall|j: int| 0 <= j < senders.len() implies #[trigger] after.peers[i].1.senders[j]
            == senders[j] by {
            assert(after.peers[i].1.senders[j].1.packets =~= senders[j].1.packets);
        }
        assert(after.peers[i].1.senders =~= senders);
    }
    assert(after.peers =~= state.peers);
    assert(after.meeting.engine_in =~= state.meeting.engine_in);
    assert(after.warnings =~= state.warnings);
}

proof fn lemma_one_more_received<Ch, R, S, D, F>(
    start: MockMeetingView<Ch, R, S, D, F>,
    done: Seq<(u64, RoutedFrameView)>,
    frame: RoutedFrameView,
)
    requires
        keys_ascend(start.peers),
    ensures
        start.while_receiving(done.push((0u64, frame))) == ({
            let state = start.while_receiving(done);
            MockMeetingView {
                meeting: MeetingView {
                    engine_in: match told_by(frame) {
                        Some(event) => state.meeting.engine_in.push(event),
                        None => state.meeting.engine_in,
                    },
                    ..state.meeting
                },
                peers: peers_with(state.peers, seq![(0u64, frame)]),
                warnings: match frame_warning(warn_of_all(), state.peers, 0, frame) {
                    Some(warning) => state.warnings.push(warning),
                    None => state.warnings,
                },
                ..state
            }
        }),
{
    let next = (0u64, frame);
    let config = warn_of_all();
    lemma_one_more_frame(done, next, 0, EngineId(0), 0, 0, config, start.peers);
    lemma_peers_with(start.peers, done, 0, frame, config);
    lemma_peers_with_push(start.peers, done, next);
    let state = start.while_receiving(done);
    let all = start.while_receiving(done.push(next));
    if let Some(event) = told_by(frame) {
        assert(all.meeting.engine_in =~= state.meeting.engine_in.push(event));
    }
    if let Some(warning) = frame_warning(config, start.peers, 0, frame) {
        assert(all.warnings =~= state.warnings.push(warning));
    }
}

/// Meetings on one machine.
pub struct MockMachine<Ch, R, S, D, F> {
    id_generator: u64,
    meetings: OrderedMap<MockMeeting<Ch, R, S, D, F>>,
}

/// What a [`MockMachine`] holds.
#[verifier::ext_equal]
pub struct MachineView<Ch, R, S, D, F> {
    /// The number of the meeting that started last.
    pub last: u64,
    pub meetings: Seq<(u64, MockMeetingView<Ch, R, S, D, F>)>,
}

impl<Ch, R, S, D, F> View for MockMachine<Ch, R, S, D, F> {
    type V = MachineView<Ch, R, S, D, F>;

    closed spec fn view(&self) -> MachineView<Ch, R, S, D, F> {
        MachineView { last: self.id_generator, meetings: viewed(self.meetings@) }
    }
}

impl<Ch: Pump, R, S, D, F> MockMachine<Ch, R, S, D, F> where
    F: Fn(PeerBuilder<Ch, R, S, D>) -> Result<PeerBuilder<Ch, R, S, D>, Error>,
 {
    pub fn new() -> (result: Self)
        ensures
            result@ == (MachineView::<Ch, R, S, D, F> { last: 0, meetings: Seq::empty() }),
    {
        let result = MockMachine { id_generator: 0, meetings: OrderedMap::new() };
        assert(result@.meetings =~= Seq::<(u64, MockMeetingView<Ch, R, S, D, F>)>::empty());
        result
    }

    /// Starts a meeting, and gives its number.
    pub fn start_meeting(&mut self, name: String, factory: PeerFactory<F, D>, port: MockNetworkPort)
        -> (result: u64)
        requires
            old(self)@.last < u64::MAX,
        ensures
            result == old(self)@.last + 1,
            final(self)@.last == result,
            final(self)@.meetings == with_value(
                old(self)@.meetings,
                result,
                MockMeetingView::<Ch, R, S, D, F> {
                    meeting: MeetingView {
                        factory: factory@,
                        engine_in: Seq::empty(),
                        engine_out: Seq::empty(),
                        user_in: Seq::empty(),
                        user_out: Seq::empty(),
                        engine_gone: false,
                        user_gone: false,
                        peers: Seq::empty(),
                        name: name@,
                    },
                    peers: Seq::empty(),
                    port: port@,
                    warnings: Seq::empty(),
                },
            ),
    {
        self.id_generator = self.id_generator + 1;
        let meeting = MockMeeting::new(name, factory, port);
        let _known: usize = self.meetings.len();
        proof {
            lemma_viewed(self.meetings@, self.id_generator, meeting);
        }
        self.meetings.insert(self.id_generator, meeting);
        self.id_generator
    }

    /// Stops a meeting.
    pub fn stop_meeting(&mut self, id: u64)
        ensures
            final(self)@ == (MachineView {
                meetings: without_key(old(self)@.meetings, id),
                ..old(self)@
            }),
    {
        let ghost before = self.meetings@;
        let _known: usize = self.meetings.len();
        let removed = self.meetings.remove(id);
        proof {
            lemma_same_keys(before, viewed(before), id);
            if let Some(meeting) = removed {
                lemma_viewed(before, id, meeting);
            }
        }
    }

    /// A meeting, to be changed.
    pub fn meeting_mut(&mut self, id: u64) -> (result: Option<&mut MockMeeting<Ch, R, S, D, F>>)
        ensures
            match result {
                Some(meeting) => {
                    &&& value_of(old(self)@.meetings, id) == Some(meeting@)
                    &&& final(self)@ == (MachineView {
                        meetings: with_value(old(self)@.meetings, id, final(meeting)@),
                        ..old(self)@
                    })
                },
                None => !has_key(old(self)@.meetings, id) && final(self)@ == old(self)@,
            },
    {
        let ghost before = self@;
        let ghost entries = self.meetings@;
        let (place, found): (usize, bool) = self.meetings.find(id);
        proof {
            lemma_same_keys(entries, before.meetings, id);
        }
        if found {
            let meeting = self.meetings.value_mut(place);
            proof {
                lemma_viewed_update(entries, place as int, *final(meeting));
                assert(viewed(
                    entries.update(place as int, (entries[place as int].0, *final(meeting))),
                ) =~= with_value(before.meetings, id, final(meeting)@));
            }
            Some(meeting)
        } else {
            None
        }
    }
}

impl<Ch: Pump, R, S, D, F> Default for MockMachine<Ch, R, S, D, F> where
    F: Fn(PeerBuilder<Ch, R, S, D>) -> Result<PeerBuilder<Ch, R, S, D>, Error>,
 {
    fn default() -> (result: Self)
        ensures
            result@ == (MachineView::<Ch, R, S, D, F> { last: 0, meetings: Seq::empty() }),
    {
        MockMachine::new()
    }
}

/// A port delays by its base and by what is drawn between its bounds, where these leave anything
/// to draw.
pub proof fn law_allowed_delays(config: MockNetworkPortConfig, delay: u64)
    ensures
        config.latency_start < config.latency_end ==> (config.allows(delay) <==> config.base_latency
            + config.latency_start <= delay && delay < config.base_latency + config.latency_end),
        config.latency_start >= config.latency_end ==> (config.allows(delay) <==> delay
            == config.base_latency),
{
}

/// A message is handed out once the time that passed is no less than its delay, among those of
/// its way, and else waits on for what is left of its delay. Messages keep their order.
pub proof fn law_messages_wait_for_their_delay(
    first: Seq<MessageView>,
    second: Seq<MessageView>,
    message: MessageView,
    elapsed: u64,
    control: bool,
)
    ensures
        due(first + second, elapsed, control) == due(first, elapsed, control) + due(
            second,
            elapsed,
            control,
        ),
        pending(first + second, elapsed) == pending(first, elapsed) + pending(second, elapsed),
        due(Seq::empty(), elapsed, control) == Seq::<RoutedFrameView>::empty(),
        pending(Seq::empty(), elapsed) == Seq::<MessageView>::empty(),
        due(seq![message], elapsed, control) == if message.delay <= elapsed && message.control
            == control {
            seq![message.frame]
        } else {
            Seq::empty()
        },
        message.delay <= elapsed ==> pending(seq![message], elapsed) == Seq::<MessageView>::empty(),
        message.delay > elapsed ==> {
            let waits = pending(seq![message], elapsed);
            &&& waits.len() == 1
            &&& waits[0].delay == message.delay - elapsed
            &&& waits[0].frame == message.frame
            &&& waits[0].control == message.control
        },
    decreases second.len(),
{
    let one = seq![message];
    let nothing = Seq::<MessageView>::empty();
    assert(one.drop_last() =~= nothing);
    assert(one.last() == message);
    assert(due(nothing, elapsed, control) == Seq::<RoutedFrameView>::empty());
    assert(pending(nothing, elapsed) == Seq::<MessageView>::empty());
    assert(Seq::<RoutedFrameView>::empty().push(message.frame) =~= seq![message.frame]);
    if second.len() == 0 {
        assert(first + second =~= first);
        assert(due(first, elapsed, control) + Seq::<RoutedFrameView>::empty() =~= due(
            first,
            elapsed,
            control,
        ));
        assert(pending(first, elapsed) + Seq::<MessageView>::empty() =~= pending(first, elapsed));
    } else {
        law_messages_wait_for_their_delay(first, second.drop_last(), message, elapsed, control);
        assert((first + second).drop_last() =~= first + second.drop_last());
        assert(due(first + second, elapsed, control) =~= due(first, elapsed, control) + due(
            second,
            elapsed,
            control,
        ));
        assert(pending(first + second, elapsed) =~= pending(first, elapsed) + pending(
            second,
            elapsed,
        ));
    }
}

/// A frame that is not lost is mailed to every port but the one that it came from, with the delay
/// that was drawn for it, behind those before it.
pub proof fn law_frames_are_mailed_to_others(
    sent: Seq<SentView>,
    fates: Seq<Option<u64>>,
    frame: SentView,
    delay: u64,
    key: u64,
)
    requires
        sent.len() == fates.len(),
    ensures
        ({
            let before = mailed(sent, fates, key);
            let after = mailed(sent.push(frame), fates.push(Some(delay)), key);
            &&& frame.source == key ==> after == before
            &&& frame.source != key ==> {
                &&& after.len() == before.len() + 1
                &&& after.drop_last() == before
                &&& after.last().delay == delay
                &&& after.last().control == frame.control
                &&& after.last().frame == frame.frame
            }
        }),
{
    let all = sent.push(frame);
    let all_fates = fates.push(Some(delay));
    assert(all.drop_last() =~= sent);
    assert(all_fates.drop_last() =~= fates);
    assert(all.last() == frame);
    assert(all_fates.last() == Some(delay));
    if frame.source != key {
        assert(mailed(all, all_fates, key).drop_last() =~= mailed(sent, fates, key));
    }
}

/// What ports sent is collected port by port, the frames about peers before the packets, each in
/// order and with the port that it came from; nothing is left to send, and all else stays.
pub proof fn law_all_is_collected(
    nodes: Seq<(u64, NodeView)>,
    key: u64,
    node: NodeView,
    place: int,
)
    ensures
        all_sent(Seq::empty()) == Seq::<SentView>::empty(),
        ({
            let before = all_sent(nodes);
            let after = all_sent(nodes.push((key, node)));
            &&& after.len() == before.len() + node.from_control.len() + node.from_packet.len()
            &&& after.take(before.len() as int) == before
            &&& 0 <= place < node.from_control.len() ==> after[before.len() + place] == (SentView {
                source: key,
                control: true,
                frame: node.from_control[place],
                config: node.config,
            })
            &&& 0 <= place < node.from_packet.len() ==> after[before.len() + node.from_control.len()
                + place] == (SentView {
                source: key,
                control: false,
                frame: node.from_packet[place],
                config: node.config,
            })
        }),
        0 <= place < nodes.len() ==> {
            let taken = all_taken(nodes)[place];
            &&& taken.0 == nodes[place].0
            &&& taken.1.from_control.len() == 0
            &&& taken.1.from_packet.len() == 0
            &&& taken.1.to_control == nodes[place].1.to_control
            &&& taken.1.to_packet == nodes[place].1.to_packet
            &&& taken.1.mailbox == nodes[place].1.mailbox
            &&& taken.1.config == nodes[place].1.config
        },
        all_taken(nodes).len() == nodes.len(),
{
    assert(nodes.push((key, node)).drop_last() =~= nodes);
    let after = all_sent(nodes.push((key, node)));
    assert(after.take(all_sent(nodes).len() as int) =~= all_sent(nodes));
}

/// A port that is served hands out all that is due of what waited and of what came, behind what
/// it handed out before, and keeps the rest; what it has to send stays.
pub proof fn law_served_ports_hand_out(
    nodes: Seq<(u64, NodeView)>,
    sent: Seq<SentView>,
    fates: Seq<Option<u64>>,
    elapsed: u64,
    place: int,
)
    requires
        0 <= place < nodes.len(),
    ensures
        ({
            let before = nodes[place].1;
            let after = all_served(nodes, sent, fates, elapsed)[place];
            let mail = before.mailbox + mailed(sent, fates, nodes[place].0);
            &&& all_served(nodes, sent, fates, elapsed).len() == nodes.len()
            &&& after.0 == nodes[place].0
            &&& after.1.to_control == before.to_control + due(mail, elapsed, true)
            &&& after.1.to_packet == before.to_packet + due(mail, elapsed, false)
            &&& after.1.mailbox == pending(mail, elapsed)
            &&& after.1.from_control == before.from_control
            &&& after.1.from_packet == before.from_packet
            &&& after.1.config == before.config
        }),
{
}

/// What a meeting told before it told that it is destroyed is all that is taken note of.
pub proof fn law_before_the_end(events: Seq<EngineEventView>, place: int)
    ensures
        before_end(events) <= events.len(),
        before_end(events) < events.len() ==> events[before_end(events) as int] is MeetingDestroyed,
        0 <= place < before_end(events) ==> !(events[place] is MeetingDestroyed),
    decreases events.len(),
{
    if events.len() > 0 && !(events[0] is MeetingDestroyed) {
        law_before_the_end(events.skip(1), place - 1);
        assert(events.skip(1).len() == events.len() - 1);
        if before_end(events) < events.len() {
            assert(events.skip(1)[before_end(events) - 1] == events[before_end(events) as int]);
        }
        if 0 < place < before_end(events) {
            assert(events.skip(1)[place - 1] == events[place]);
        }
    }
}

/// A meeting on a port receives frames about peers before packets and leaves none unreceived,
/// sends packets on the way for packets and announcements on the way for frames about peers, and
/// leaves nothing that the meeting told.
pub proof fn law_ports_have_two_ways<Ch, R, S, D, F>(state: MockMeetingView<Ch, R, S, D, F>)
    ensures
        ({
            let received = state.after_receiving();
            let frames = frames_of(0, state.port.control_in + state.port.packet_in);
            &&& received.port.control_in.len() == 0
            &&& received.port.packet_in.len() == 0
            &&& received.port.control_out == state.port.control_out
            &&& received.port.packet_out == state.port.packet_out
            &&& received.meeting.engine_in == state.meeting.engine_in + told(frames)
            &&& received.meeting.user_out == state.meeting.user_out
            &&& received.peers == peers_with(state.peers, frames)
        }),
        ({
            let sent = state.after_sending();
            &&& sent.port.packet_out == state.port.packet_out + all_written(state.peers)
            &&& sent.port.control_out == state.port.control_out
            &&& sent.port.control_in == state.port.control_in
            &&& sent.port.packet_in == state.port.packet_in
            &&& sent.peers == all_cleared(state.peers)
            &&& sent.meeting == state.meeting
        }),
        ({
            let settled = state.after_settling();
            let events = state.meeting.engine_out.take(before_end(state.meeting.engine_out) as int);
            &&& settled.meeting.engine_out.len() == 0
            &&& settled.meeting.engine_in == state.meeting.engine_in
            &&& settled.meeting.peers == state.meeting.peers
            &&& settled.port.control_out == state.port.control_out + announced(state.peers, events)
            &&& settled.port.packet_out == state.port.packet_out
            &&& settled.peers == peers_settled(state.peers, events)
        }),
        warn_of_all().warn_unhandled_control_frame,
        warn_of_all().warn_duplicate_peer_creation,
        warn_of_all().warn_unknown_peer_destruction,
        warn_of_all().warn_unknown_peer_packet,
        warn_of_all().warn_unknown_channel_packet,
        warn_of_all().warn_unhandled_engine_event,
{
}

} // verus!
