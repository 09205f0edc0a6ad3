//! What becomes of packets on their way from a peer on one machine to the same peer on another.

use vstd::prelude::*;

use crate::channel::{
    law_messages_are_delivered, lemma_written, packet_of, Channel, ChannelId, ChannelView,
};
use crate::codec::{Codec, LosslessCodec};
use crate::engine::{
    addressed, all_written, delivered, frame_views, frames_of, packets_of, peers_settled, received,
    written, DescriptorView, EngineId, EngineMeetingView, QueueView, SessionView,
};
use crate::error::Error;
use crate::meeting::EngineEventView;
use crate::ordered_map::{keys_ascend, law_with_value, law_without_key, lemma_place, value_of};
use crate::outgoing::lemma_addressed_both;
use crate::peer::{PeerBuilder, PeerId};
use crate::protocol::{FrameView, PacketDataView, RoutedFrame, RoutedFrameView};
use crate::session::{arrived, frames_bytes, law_frames_round_trip, parse_frames, stamped};
use crate::wiring::{is_ready, put_on_way};

verus! {

/// Those of the packets that a machine is to get, in their order.
pub open spec fn those_for(packets: Seq<PacketDataView>, engine_id: EngineId) -> Seq<
    PacketDataView,
>
    decreases packets.len(),
{
    if packets.len() == 0 {
        Seq::empty()
    } else {
        let before = those_for(packets.drop_last(), engine_id);
        if packets.last().is_for(engine_id) {
            before.push(packets.last())
        } else {
            before
        }
    }
}

/// A packet that was brought over. If a session brought it, it names the machine that it is from,
/// and nobody who is to get it.
pub open spec fn marked_packet(packet: PacketDataView, from: Option<EngineId>) -> PacketDataView {
    match from {
        Some(engine_id) => PacketDataView {
            data: packet.data,
            recepients: Seq::empty(),
            sender: Some(engine_id),
        },
        None => packet,
    }
}

/// Packets that were brought over.
pub open spec fn marked_packets(packets: Seq<PacketDataView>, from: Option<EngineId>) -> Seq<
    PacketDataView,
> {
    Seq::new(packets.len(), |m: int| marked_packet(packets[m], from))
}

/// A frame that was brought over.
pub open spec fn marked(frame: RoutedFrameView, from: Option<EngineId>) -> RoutedFrameView {
    match frame {
        RoutedFrameView::Packet(peer_id, channel_id, packet) => RoutedFrameView::Packet(
            peer_id,
            channel_id,
            marked_packet(packet, from),
        ),
        RoutedFrameView::Control(_) => frame,
    }
}

/// Frames that were brought over, by the session with a machine or as they are.
pub open spec fn brought_over(frames: Seq<RoutedFrameView>, from: Option<EngineId>) -> Seq<
    RoutedFrameView,
> {
    Seq::new(frames.len(), |m: int| marked(frames[m], from))
}

/// Whether packets stand among all, next to each other and in this order.
pub open spec fn stand_among(packets: Seq<PacketDataView>, all: Seq<PacketDataView>) -> bool {
    exists|at: int|
        {
            &&& 0 <= at <= all.len() - packets.len()
            &&& #[trigger] all.subrange(at, at + packets.len()) == packets
        }
}

/// Whether peers stand under their own numbers.
pub open spec fn own_numbers(peers: Seq<(u64, DescriptorView)>) -> bool {
    forall|i: int| 0 <= i < peers.len() ==> (#[trigger] peers[i]).1.info.peer_id.0 == peers[i].0
}

/// Peers stand under their own numbers, whatever machines bring and the meeting tells.
pub proof fn law_peers_keep_their_numbers<Ch, R, S, D, F>(
    state: EngineMeetingView<Ch, R, S, D, F>,
    count: int,
)
    requires
        keys_ascend(state.peers),
        own_numbers(state.peers),
        0 <= count <= state.meeting.engine_out.len(),
    ensures
        own_numbers(state.after_admission().peers),
        own_numbers(state.after_receiving().peers),
        own_numbers(state.after_sending().peers),
        own_numbers(state.after_settling(count).peers),
        keys_ascend(state.after_settling(count).peers),
{
    let peers = state.peers;
    assert forall|i: int| 0 <= i < peers.len() implies (
    #[trigger] state.after_receiving().peers[i]).1.info.peer_id.0
        == state.after_receiving().peers[i].0 by {
        assert(peers[i].1.info.peer_id.0 == peers[i].0);
    }
    assert forall|i: int| 0 <= i < peers.len() implies (
    #[trigger] state.after_sending().peers[i]).1.info.peer_id.0
        == state.after_sending().peers[i].0 by {
        assert(peers[i].1.info.peer_id.0 == peers[i].0);
    }
    lemma_settled_numbers(peers, state.meeting.engine_out.take(count));
}

proof fn lemma_settled_numbers(
    peers: Seq<(u64, DescriptorView)>,
    events: Seq<EngineEventView>,
)
    requires
        keys_ascend(peers),
        own_numbers(peers),
    ensures
        keys_ascend(peers_settled(peers, events)),
        own_numbers(peers_settled(peers, events)),
    decreases events.len(),
{
    if events.len() > 0 {
        lemma_settled_numbers(peers, events.drop_last());
        let before = peers_settled(peers, events.drop_last());
        match events.last() {
            EngineEventView::PeerCreated(descriptor) => {
                let key = descriptor.info.peer_id.0;
                law_with_value(before, key, descriptor, key);
                lemma_place(before, key);
            },
            EngineEventView::PeerDestroyed(peer_id) => {
                law_without_key(before, peer_id.0, peer_id.0);
                lemma_place(before, peer_id.0);
            },
            _ => {},
        }
    }
}

proof fn lemma_delivered_both(
    first: Seq<(u64, RoutedFrameView)>,
    second: Seq<(u64, RoutedFrameView)>,
    peer_id: u64,
    channel_id: u64,
)
    ensures
        delivered(first + second, peer_id, channel_id) == delivered(first, peer_id, channel_id)
            + delivered(second, peer_id, channel_id),
    decreases second.len(),
{
    if second.len() == 0 {
        assert(first + second =~= first);
        assert(delivered(first, peer_id, channel_id) + Seq::<PacketDataView>::empty()
            =~= delivered(first, peer_id, channel_id));
    } else {
        lemma_delivered_both(first, second.drop_last(), peer_id, channel_id);
        assert((first + second).drop_last() =~= first + second.drop_last());
        assert(delivered(first + second, peer_id, channel_id) =~= delivered(
            first,
            peer_id,
            channel_id,
        ) + delivered(second, peer_id, channel_id));
    }
}

/// What frames bring to a channel of a peer, once a machine got those that it is to get.
spec fn brought(
    key: u64,
    frames: Seq<RoutedFrameView>,
    engine_id: EngineId,
    peer_id: u64,
    channel_id: u64,
) -> Seq<PacketDataView> {
    delivered(frames_of(key, addressed(frames, engine_id)), peer_id, channel_id)
}

proof fn lemma_brought_both(
    key: u64,
    first: Seq<RoutedFrameView>,
    second: Seq<RoutedFrameView>,
    engine_id: EngineId,
    peer_id: u64,
    channel_id: u64,
)
    ensures
        brought(key, first + second, engine_id, peer_id, channel_id) == brought(
            key,
            first,
            engine_id,
            peer_id,
            channel_id,
        ) + brought(key, second, engine_id, peer_id, channel_id),
{
    let a = addressed(first, engine_id);
    let b = addressed(second, engine_id);
    lemma_addressed_both(first, second, engine_id);
    assert(frames_of(key, a + b) =~= frames_of(key, a) + frames_of(key, b));
    lemma_delivered_both(frames_of(key, a), frames_of(key, b), peer_id, channel_id);
}

/// What the packets from one channel bring to a channel.
proof fn lemma_packets_brought(
    key: u64,
    from: PeerId,
    channel: ChannelId,
    packets: Seq<PacketDataView>,
    engine_id: EngineId,
    peer_id: u64,
    channel_id: u64,
)
    ensures
        brought(key, packets_of(from, channel, packets), engine_id, peer_id, channel_id) == (
        if from.0 == peer_id && channel.0 == channel_id {
            those_for(packets, engine_id)
        } else {
            Seq::empty()
        }),
    decreases packets.len(),
{
    let frames = packets_of(from, channel, packets);
    if packets.len() == 0 {
        assert(addressed(frames, engine_id) =~= Seq::<RoutedFrameView>::empty());
        assert(frames_of(key, addressed(frames, engine_id)) =~= Seq::<
            (u64, RoutedFrameView),
        >::empty());
    } else {
        let fewer = packets.drop_last();
        let rest = packets_of(from, channel, fewer);
        lemma_packets_brought(key, from, channel, fewer, engine_id, peer_id, channel_id);
        assert(frames.drop_last() =~= rest);
        let sent = addressed(frames, engine_id);
        if packets.last().is_for(engine_id) {
            assert(frames_of(key, sent).drop_last() =~= frames_of(
                key,
                addressed(rest, engine_id),
            ));
        }
    }
}

/// What the channels of a peer bring to a channel of another peer: nothing.
proof fn lemma_written_elsewhere(
    key: u64,
    from: PeerId,
    receivers: Seq<(u64, QueueView)>,
    engine_id: EngineId,
    peer_id: u64,
    channel_id: u64,
)
    requires
        from.0 != peer_id || forall|j: int|
            0 <= j < receivers.len() ==> (#[trigger] receivers[j]).0 != channel_id,
    ensures
        brought(key, written(from, receivers), engine_id, peer_id, channel_id) == Seq::<
            PacketDataView,
        >::empty(),
    decreases receivers.len(),
{
    if receivers.len() == 0 {
        assert(addressed(Seq::<RoutedFrameView>::empty(), engine_id) =~= Seq::<
            RoutedFrameView,
        >::empty());
        assert(frames_of(key, Seq::<RoutedFrameView>::empty()) =~= Seq::<
            (u64, RoutedFrameView),
        >::empty());
    } else {
        let rest = receivers.drop_last();
        let last = receivers.last();
        assert forall|j: int| 0 <= j < rest.len() && from.0 == peer_id implies (
        #[trigger] rest[j]).0 != channel_id by {
            assert(rest[j] == receivers[j]);
        }
        lemma_written_elsewhere(key, from, rest, engine_id, peer_id, channel_id);
        let packets = packets_of(from, ChannelId(last.0), last.1.packets);
        lemma_packets_brought(
            key,
            from,
            ChannelId(last.0),
            last.1.packets,
            engine_id,
            peer_id,
            channel_id,
        );
        assert(receivers[receivers.len() - 1] == last);
        lemma_brought_both(key, written(from, rest), packets, engine_id, peer_id, channel_id);
    }
}

/// What the channels of a peer bring to one of its channels: what was written to that.
proof fn lemma_written_here(
    key: u64,
    from: PeerId,
    receivers: Seq<(u64, QueueView)>,
    engine_id: EngineId,
    j: int,
)
    requires
        keys_ascend(receivers),
        0 <= j < receivers.len(),
    ensures
        brought(key, written(from, receivers), engine_id, from.0, receivers[j].0) == those_for(
            receivers[j].1.packets,
            engine_id,
        ),
    decreases receivers.len(),
{
    let rest = receivers.drop_last();
    let last = receivers.last();
    let channel_id = receivers[j].0;
    let packets = packets_of(from, ChannelId(last.0), last.1.packets);
    lemma_packets_brought(
        key,
        from,
        ChannelId(last.0),
        last.1.packets,
        engine_id,
        from.0,
        channel_id,
    );
    lemma_brought_both(key, written(from, rest), packets, engine_id, from.0, channel_id);
    let wanted = those_for(receivers[j].1.packets, engine_id);
    if j < rest.len() {
        assert(rest[j] == receivers[j]);
        assert forall|x: int, y: int| 0 <= x < y < rest.len() implies rest[x].0 < rest[y].0 by {
            assert(receivers[x].0 < receivers[y].0);
        }
        lemma_written_here(key, from, rest, engine_id, j);
        assert(receivers[j].0 < receivers[rest.len() as int].0);
        assert(wanted + Seq::<PacketDataView>::empty() =~= wanted);
    } else {
        assert forall|x: int| 0 <= x < rest.len() implies (#[trigger] rest[x]).0 != channel_id by {
            assert(receivers[x].0 < receivers[j].0);
        }
        lemma_written_elsewhere(key, from, rest, engine_id, from.0, channel_id);
        assert(Seq::<PacketDataView>::empty() + wanted =~= wanted);
    }
}

/// What all peers bring to a channel of one of them: what that peer wrote to it.
proof fn lemma_all_written_here(
    key: u64,
    peers: Seq<(u64, DescriptorView)>,
    engine_id: EngineId,
    i: int,
    j: int,
)
    requires
        keys_ascend(peers),
        own_numbers(peers),
        0 <= i < peers.len(),
        keys_ascend(peers[i].1.receivers),
        0 <= j < peers[i].1.receivers.len(),
    ensures
        brought(key, all_written(peers), engine_id, peers[i].0, peers[i].1.receivers[j].0)
            == those_for(peers[i].1.receivers[j].1.packets, engine_id),
    decreases peers.len(),
{
    let rest = peers.drop_last();
    let last = peers.last().1;
    let peer_id = peers[i].0;
    let channel_id = peers[i].1.receivers[j].0;
    let wanted = those_for(peers[i].1.receivers[j].1.packets, engine_id);
    lemma_brought_both(
        key,
        all_written(rest),
        written(last.info.peer_id, last.receivers),
        engine_id,
        peer_id,
        channel_id,
    );
    assert(peers[peers.len() - 1].1 == last);
    if i < rest.len() {
        assert(rest[i] == peers[i]);
        assert forall|x: int, y: int| 0 <= x < y < rest.len() implies rest[x].0 < rest[y].0 by {
            assert(peers[x].0 < peers[y].0);
        }
        assert forall|x: int| 0 <= x < rest.len() implies (#[trigger] rest[x]).1.info.peer_id.0
            == rest[x].0 by {
            assert(peers[x].1.info.peer_id.0 == peers[x].0);
        }
        lemma_all_written_here(key, rest, engine_id, i, j);
        assert(peers[i].0 < peers[rest.len() as int].0);
        lemma_written_elsewhere(
            key,
            last.info.peer_id,
            last.receivers,
            engine_id,
            peer_id,
            channel_id,
        );
        assert(wanted + Seq::<PacketDataView>::empty() =~= wanted);
    } else {
        lemma_written_here(key, last.info.peer_id, last.receivers, engine_id, j);
        lemma_nothing_from_others(key, peers, rest.len() as int, engine_id, channel_id);
        assert(rest =~= peers.take(rest.len() as int));
        assert(Seq::<PacketDataView>::empty() + wanted =~= wanted);
    }
}

/// What the first of the peers bring to a channel of the one behind them: nothing.
proof fn lemma_nothing_from_others(
    key: u64,
    peers: Seq<(u64, DescriptorView)>,
    count: int,
    engine_id: EngineId,
    channel_id: u64,
)
    requires
        keys_ascend(peers),
        own_numbers(peers),
        0 <= count < peers.len(),
    ensures
        brought(
            key,
            all_written(peers.take(count)),
            engine_id,
            peers.last().0,
            channel_id,
        ) == Seq::<PacketDataView>::empty(),
    decreases count,
{
    let some = peers.take(count);
    let peer_id = peers.last().0;
    if count == 0 {
        assert(addressed(Seq::<RoutedFrameView>::empty(), engine_id) =~= Seq::<
            RoutedFrameView,
        >::empty());
        assert(frames_of(key, Seq::<RoutedFrameView>::empty()) =~= Seq::<
            (u64, RoutedFrameView),
        >::empty());
    } else {
        lemma_nothing_from_others(key, peers, count - 1, engine_id, channel_id);
        assert(some.drop_last() =~= peers.take(count - 1));
        let last = some.last().1;
        assert(some.last() == peers[count - 1]);
        assert(peers[count - 1].0 < peers[peers.len() - 1].0);
        lemma_written_elsewhere(
            key,
            last.info.peer_id,
            last.receivers,
            engine_id,
            peer_id,
            channel_id,
        );
        lemma_brought_both(
            key,
            all_written(some.drop_last()),
            written(last.info.peer_id, last.receivers),
            engine_id,
            peer_id,
            channel_id,
        );
    }
}

/// The frames that came from one machine stand among all that came.
proof fn lemma_received_from(engines: Seq<(u64, SessionView)>, place: int) -> (split: (
    Seq<(u64, RoutedFrameView)>,
    Seq<(u64, RoutedFrameView)>,
))
    requires
        0 <= place < engines.len(),
    ensures
        received(engines) == split.0 + frames_of(
            engines[place].0,
            engines[place].1.inbox,
        ) + split.1,
    decreases engines.len(),
{
    let rest = engines.drop_last();
    let last = frames_of(engines.last().0, engines.last().1.inbox);
    if place == rest.len() {
        let none = Seq::<(u64, RoutedFrameView)>::empty();
        assert(received(rest) + last + none =~= received(rest) + last);
        (received(rest), none)
    } else {
        let split = lemma_received_from(rest, place);
        assert(rest[place] == engines[place]);
        let middle = frames_of(engines[place].0, engines[place].1.inbox);
        assert(split.0 + middle + split.1 + last =~= split.0 + middle + (split.1 + last));
        (split.0, split.1 + last)
    }
}

/// What frames say on the wire, one by one.
pub open spec fn on_wire(frames: Seq<RoutedFrameView>) -> Seq<FrameView> {
    Seq::new(frames.len(), |m: int| frames[m].on_wire())
}

/// Sessions bring frames over: what one sends as bytes, the other gets as frames, with the
/// machine that they are from.
pub proof fn law_sessions_bring_frames_over(
    frames: Seq<RoutedFrameView>,
    wire: Seq<FrameView>,
    came: Seq<RoutedFrame>,
    from: EngineId,
)
    requires
        forall|m: int| 0 <= m < frames.len() ==> (#[trigger] frames[m]).on_wire().fits(),
        parse_frames(frames_bytes(on_wire(frames))) == Ok::<Seq<FrameView>, Error>(wire),
        arrived(came, wire, from),
    ensures
        frame_views(came) == brought_over(frames, Some(from)),
{
    assert forall|m: int| 0 <= m < frames.len() implies (#[trigger] on_wire(frames)[m]).fits() by {
        assert(frames[m].on_wire().fits());
    }
    law_frames_round_trip(on_wire(frames));
    assert forall|m: int| 0 <= m < frames.len() implies #[trigger] frame_views(came)[m]
        == brought_over(frames, Some(from))[m] by {
        assert(came[m]@ == stamped(RoutedFrameView::from_wire(wire[m]), from, false));
    }
    assert(frame_views(came) =~= brought_over(frames, Some(from)));
}

/// Being brought over changes nothing about where packets go.
proof fn lemma_brought_over(
    key: u64,
    frames: Seq<RoutedFrameView>,
    from: Option<EngineId>,
    peer_id: u64,
    channel_id: u64,
)
    ensures
        delivered(frames_of(key, brought_over(frames, from)), peer_id, channel_id)
            == marked_packets(delivered(frames_of(key, frames), peer_id, channel_id), from),
    decreases frames.len(),
{
    let all = frames_of(key, frames);
    let over = frames_of(key, brought_over(frames, from));
    if frames.len() == 0 {
        assert(delivered(over, peer_id, channel_id) =~= marked_packets(
            delivered(all, peer_id, channel_id),
            from,
        ));
    } else {
        let rest = frames.drop_last();
        lemma_brought_over(key, rest, from, peer_id, channel_id);
        assert(all.drop_last() =~= frames_of(key, rest));
        assert(over.drop_last() =~= frames_of(key, brought_over(rest, from)));
        assert(delivered(over, peer_id, channel_id) =~= marked_packets(
            delivered(all, peer_id, channel_id),
            from,
        ));
    }
}

proof fn lemma_for_all(packets: Seq<PacketDataView>, engine_id: EngineId)
    requires
        forall|m: int| 0 <= m < packets.len() ==> (#[trigger] packets[m]).recepients.len() == 0,
    ensures
        those_for(packets, engine_id) == packets,
    decreases packets.len(),
{
    if packets.len() > 0 {
        let rest = packets.drop_last();
        assert forall|m: int| 0 <= m < rest.len() implies (
        #[trigger] rest[m]).recepients.len() == 0 by {
            assert(rest[m] == packets[m]);
        }
        lemma_for_all(rest, engine_id);
        assert(packets[packets.len() - 1] == packets.last());
        assert(rest.push(packets.last()) =~= packets);
    }
}

/// What a peer wrote to a channel on one machine, and another machine is to get, stands on the
/// way to the same channel of the same peer there, in the same order, once the frames that the
/// one machine had for the other were brought over. That is all of it, if no packet names who is
/// to get it.
pub proof fn law_packets_cross<Ch, R, S, D, F>(
    here: EngineMeetingView<Ch, R, S, D, F>,
    there: EngineMeetingView<Ch, R, S, D, F>,
    way: int,
    back: int,
    earlier: Seq<RoutedFrameView>,
    later: Seq<RoutedFrameView>,
    from: Option<EngineId>,
    i: int,
    j: int,
    a: int,
    b: int,
)
    requires
        keys_ascend(here.peers),
        own_numbers(here.peers),
        0 <= i < here.peers.len(),
        keys_ascend(here.peers[i].1.receivers),
        0 <= j < here.peers[i].1.receivers.len(),
        0 <= way < here.engines.len(),
        0 <= back < there.engines.len(),
        there.engines[back].1.inbox == earlier + brought_over(
            here.after_sending().engines[way].1.outbox.skip(
                here.engines[way].1.outbox.len() as int,
            ),
            from,
        ) + later,
        0 <= a < there.peers.len(),
        there.peers[a].0 == here.peers[i].0,
        0 <= b < there.peers[a].1.senders.len(),
        there.peers[a].1.senders[b].0 == here.peers[i].1.receivers[j].0,
    ensures
        ({
            let packets = here.peers[i].1.receivers[j].1.packets;
            let arrived = there.after_receiving().peers[a].1.senders[b].1.packets;
            &&& stand_among(
                marked_packets(those_for(packets, here.engines[way].1.engine_id), from),
                arrived,
            )
            &&& (forall|m: int|
                0 <= m < packets.len() ==> (#[trigger] packets[m]).recepients.len() == 0)
                ==> stand_among(marked_packets(packets, from), arrived)
        }),
{
    let engine_id = here.engines[way].1.engine_id;
    let packets = here.peers[i].1.receivers[j].1.packets;
    let wanted = those_for(packets, engine_id);
    let peer_id = here.peers[i].0;
    let channel_id = here.peers[i].1.receivers[j].0;
    let sent = addressed(all_written(here.peers), engine_id);
    let known = here.engines[way].1.outbox;
    assert(here.after_sending().engines[way].1.outbox.skip(known.len() as int) =~= sent);
    let key = there.engines[back].0;
    let inbox = there.engines[back].1.inbox;
    lemma_all_written_here(key, here.peers, engine_id, i, j);
    assert(delivered(frames_of(key, sent), peer_id, channel_id) == wanted);
    lemma_brought_over(key, sent, from, peer_id, channel_id);
    let wanted = marked_packets(wanted, from);
    let front = frames_of(key, earlier);
    let middle = frames_of(key, brought_over(sent, from));
    let behind = frames_of(key, later);
    assert(frames_of(key, inbox) =~= front + middle + behind);
    let frames = received(there.engines);
    let split = lemma_received_from(there.engines, back);
    assert(frames =~= (split.0 + front) + middle + (behind + split.1));
    lemma_delivered_both(split.0 + front, middle, peer_id, channel_id);
    lemma_delivered_both(
        (split.0 + front) + middle,
        behind + split.1,
        peer_id,
        channel_id,
    );
    let before = there.peers[a].1.senders[b].1.packets;
    let first = delivered(split.0 + front, peer_id, channel_id);
    let last = delivered(behind + split.1, peer_id, channel_id);
    let arrived = there.after_receiving().peers[a].1.senders[b].1.packets;
    assert(arrived =~= before + (first + wanted + last));
    let at = (before.len() + first.len()) as int;
    assert(arrived.subrange(at, at + wanted.len()) =~= wanted);
    if forall|m: int| 0 <= m < packets.len() ==> (#[trigger] packets[m]).recepients.len() == 0 {
        lemma_for_all(packets, engine_id);
    }
}

/// Carrying packets puts what is on its way to a channel behind what the channel holds, and what
/// a channel wrote behind what is on its way from it. Nothing else about the channels changes.
pub proof fn law_packets_reach_channels<C: Codec, R, S, D, F>(
    before: EngineMeetingView<Channel<C>, R, S, D, F>,
    after: EngineMeetingView<Channel<C>, R, S, D, F>,
    a: int,
) where F: Fn(PeerBuilder<Channel<C>, R, S, D>) -> Result<PeerBuilder<Channel<C>, R, S, D>, Error>
    requires
        before.carries(after),
        0 <= a < before.peers.len(),
        is_ready(before.meeting.peers, before.peers[a].0, before.peers[a].1),
    ensures
        ({
            let peer = before.peers[a].1;
            let reads = peer.senders.len();
            let channels = value_of(before.meeting.peers, before.peers[a].0)->Some_0;
            let channels_after = value_of(after.meeting.peers, before.peers[a].0)->Some_0;
            &&& forall|b: int|
                0 <= b < reads ==> (#[trigger] channels_after[b])@ == (ChannelView {
                    packets: channels[b]@.packets + peer.senders[b].1.packets,
                    ..channels[b]@
                })
            &&& forall|j: int|
                0 <= j < peer.receivers.len() ==> {
                    &&& (#[trigger] after.peers[a].1.receivers[j]).1.packets
                        == peer.receivers[j].1.packets + channels[reads + j]@.packets
                    &&& channels_after[reads + j]@ == (ChannelView {
                        packets: Seq::empty(),
                        ..channels[reads + j]@
                    })
                }
        }),
{
    let peer = before.peers[a].1;
    let reads = peer.senders.len();
    let channels = value_of(before.meeting.peers, before.peers[a].0)->Some_0;
    let channels_after = value_of(after.meeting.peers, before.peers[a].0)->Some_0;
    assert(after.peers[a].0 == before.peers[a].0);
    assert forall|j: int| 0 <= j < peer.receivers.len() implies {
        &&& (#[trigger] after.peers[a].1.receivers[j]).1.packets == peer.receivers[j].1.packets
            + channels[reads + j]@.packets
        &&& channels_after[reads + j]@ == (ChannelView {
            packets: Seq::empty(),
            ..channels[reads + j]@
        })
    } by {
        assert(put_on_way(
            channels[reads + j],
            peer.receivers[j],
            channels_after[reads + j],
            after.peers[a].1.receivers[j],
        ));
    }
}

/// The channel that stands at a place among those of a peer.
pub open spec fn channel_at<C: Codec, R, S, D, F>(
    state: EngineMeetingView<Channel<C>, R, S, D, F>,
    peer: int,
    place: int,
) -> ChannelView<C> {
    value_of(state.meeting.peers, state.peers[peer].0)->Some_0[place]@
}

/// A message that was written to a channel of a peer on one machine comes out of the same channel
/// of the same peer on another, once the frames that the one had for the other were brought over,
/// if nothing else is on its way to that channel: what was written was carried from the channel
/// and sent, what came was taken in and carried to the channel, and moving it there goes through.
pub proof fn law_messages_reach_other_machines<C: LosslessCodec, R, S, D, F>(
    writer: ChannelView<C>,
    count: nat,
    here: EngineMeetingView<Channel<C>, R, S, D, F>,
    carried: EngineMeetingView<Channel<C>, R, S, D, F>,
    there: EngineMeetingView<Channel<C>, R, S, D, F>,
    filled: EngineMeetingView<Channel<C>, R, S, D, F>,
    read: ChannelView<C>,
    result: Result<usize, Error>,
    way: int,
    back: int,
    earlier: Seq<RoutedFrameView>,
    later: Seq<RoutedFrameView>,
    from: Option<EngineId>,
    i: int,
    j: int,
    a: int,
    b: int,
) where F: Fn(PeerBuilder<Channel<C>, R, S, D>) -> Result<PeerBuilder<Channel<C>, R, S, D>, Error>
    requires
        // What was written to the channel is in it, and nothing else.
        writer.kind is Write,
        writer.packets.len() == 0,
        count <= writer.messages.len(),
        forall|m: int|
            0 <= m < count ==> {
                &&& C::fits((#[trigger] writer.messages[m]).message)
                &&& C::emit(writer.messages[m].message).error is None
                &&& writer.messages[m].recepients.len() == 0
            },
        0 <= i < here.peers.len(),
        0 <= j < here.peers[i].1.receivers.len(),
        writer.moved_many(
            count,
            channel_at(here, i, here.peers[i].1.senders.len() + j),
        ),
        is_ready(here.meeting.peers, here.peers[i].0, here.peers[i].1),
        here.peers[i].1.receivers[j].1.packets.len() == 0,
        // It is carried from the channel, sent and brought over.
        here.carries(carried),
        keys_ascend(carried.peers),
        own_numbers(carried.peers),
        keys_ascend(carried.peers[i].1.receivers),
        0 <= way < carried.engines.len(),
        0 <= back < there.engines.len(),
        there.engines[back].1.inbox == earlier + brought_over(
            carried.after_sending().engines[way].1.outbox.skip(
                carried.engines[way].1.outbox.len() as int,
            ),
            from,
        ) + later,
        // It is taken in, alone, and carried to the channel.
        0 <= a < there.peers.len(),
        there.peers[a].0 == here.peers[i].0,
        0 <= b < there.peers[a].1.senders.len(),
        there.peers[a].1.senders[b].0 == here.peers[i].1.receivers[j].0,
        there.after_receiving().peers[a].1.senders[b].1.packets.len() == count,
        is_ready(
            there.after_receiving().meeting.peers,
            there.after_receiving().peers[a].0,
            there.after_receiving().peers[a].1,
        ),
        channel_at(there.after_receiving(), a, b).kind is Read,
        !channel_at(there.after_receiving(), a, b).closed,
        channel_at(there.after_receiving(), a, b).packets.len() == 0,
        there.after_receiving().carries(filled),
        channel_at(filled, a, b).moved_all(read, result),
    ensures
        result matches Ok(moved) && moved == count,
        ({
            let known = channel_at(there.after_receiving(), a, b).messages;
            &&& read.messages.len() == known.len() + count
            &&& read.messages.take(known.len() as int) == known
            &&& forall|m: int|
                0 <= m < count ==> {
                    let message = #[trigger] read.messages[known.len() + m];
                    &&& C::model(message.message) == C::model(writer.messages[m].message)
                    &&& message.recepients == writer.messages[m].recepients
                    &&& message.sender == (match from {
                        Some(_) => from,
                        None => writer.messages[m].sender,
                    })
                }
        }),
{
    let peer = here.peers[i].1;
    let wrote = channel_at(here, i, peer.senders.len() + j);
    let received = there.after_receiving();
    let reader = channel_at(received, a, b);
    let full = channel_at(filled, a, b);
    lemma_written(writer, count, wrote);
    law_packets_reach_channels(here, carried, i);
    let sent = carried.peers[i].1.receivers[j].1.packets;
    assert(sent =~= wrote.packets);
    assert(carried.peers[i].0 == here.peers[i].0);
    assert forall|m: int| 0 <= m < sent.len() implies (#[trigger] sent[m]).recepients.len() == 0 by {
        assert(sent[m] == packet_of::<C>(writer.messages[m]));
    }
    law_packets_cross(carried, there, way, back, earlier, later, from, i, j, a, b);
    let arrived = received.peers[a].1.senders[b].1.packets;
    let over = marked_packets(sent, from);
    assert(stand_among(over, arrived));
    let at = choose|at: int|
        {
            &&& 0 <= at <= arrived.len() - over.len()
            &&& #[trigger] arrived.subrange(at, at + over.len()) == over
        };
    assert(arrived.subrange(at, at + over.len()) =~= arrived);
    law_packets_reach_channels(received, filled, a);
    assert(received.peers[a].0 == filled.peers[a].0);
    assert(full.packets =~= arrived);
    law_messages_are_delivered(writer, wrote, reader, full, read, count, result);
    assert forall|m: int| 0 <= m < count implies {
        let message = #[trigger] read.messages[reader.messages.len() + m];
        &&& C::model(message.message) == C::model(writer.messages[m].message)
        &&& message.recepients == writer.messages[m].recepients
        &&& message.sender == (match from {
            Some(_) => from,
            None => writer.messages[m].sender,
        })
    } by {
        assert(full.packets[m] == marked_packet(packet_of::<C>(writer.messages[m]), from));
        assert(Seq::<EngineId>::empty() =~= writer.messages[m].recepients);
    }
}

} // verus!
