//! Packets between the channels of peers and the ways of machines to them.

use std::collections::VecDeque;
use vstd::prelude::*;

use crate::channel::Pump;
use crate::engine::{
    cleared, packet_views, DescriptorView, EnginePacketReceiver, EnginePacketSender,
    EnginePeerDescriptor, QueueView,
};
use crate::error::Error;
use crate::meeting::{Meeting, MeetingView};
use crate::ordered_map::{
    has_key, keys_ascend, law_with_value, lemma_same_keys, lemma_viewed_update, value_of, viewed,
    OrderedMap,
};
use crate::peer::{BuilderView, PeerBuildResult, PeerBuilder, PeerId};
use crate::protocol::{PacketDataView, ProtocolPacketData};

verus! {

broadcast use vstd::std_specs::vecdeque::group_vec_dequeue_axioms;

/// Whether a peer has a channel for each of the ways to and from it.
pub open spec fn is_wired(peer: DescriptorView, channels: nat) -> bool {
    channels == peer.senders.len() + peer.receivers.len()
}

/// A peer that was built has a channel for each of the ways to and from it.
pub proof fn law_built_peers_are_wired<Ch, R, S, D>(
    built: PeerBuildResult<Ch, R, S, D>,
    builder: BuilderView<Ch, R, S, D>,
)
    requires
        built.is_built_from(builder),
    ensures
        is_wired(built.descriptor@, built.channels@.len()),
{
}

/// Whether taking all packets out of a channel and putting them on the way from it can give
/// these.
pub open spec fn put_on_way<Ch: Pump>(
    channel: Ch,
    way: (u64, QueueView),
    channel_after: Ch,
    way_after: (u64, QueueView),
) -> bool {
    exists|packets: Seq<PacketDataView>|
        {
            &&& #[trigger] channel.drained(channel_after, packets)
            &&& way_after == (
                way.0,
                QueueView { packets: way.1.packets + packets, ..way.1 },
            )
        }
}

/// Whether carrying packets between a peer's channels and the ways to and from them can give
/// these: what was on its way to a channel is in it, and what a channel held is on its way.
pub open spec fn carried<Ch: Pump>(
    peer: DescriptorView,
    channels: Seq<Ch>,
    peer_after: DescriptorView,
    channels_after: Seq<Ch>,
) -> bool {
    let reads = peer.senders.len();
    &&& channels_after.len() == channels.len()
    &&& peer_after.info == peer.info
    &&& peer_after.senders == cleared(peer.senders)
    &&& peer_after.receivers.len() == peer.receivers.len()
    &&& forall|k: int|
        0 <= k < reads ==> channels[k].filled(
            peer.senders[k].1.packets,
            #[trigger] channels_after[k],
        )
    &&& forall|j: int|
        0 <= j < peer.receivers.len() ==> put_on_way(
            channels[reads + j],
            peer.receivers[j],
            channels_after[reads + j],
            #[trigger] peer_after.receivers[j],
        )
}

/// Puts the packets that are on their way to a channel into it.
fn fill<Ch: Pump>(sender: &mut EnginePacketSender, channel: &mut Ch)
    ensures
        final(sender)@ == (QueueView { packets: Seq::empty(), ..old(sender)@ }),
        old(channel).filled(old(sender)@.packets, *final(channel)),
{
    let ghost before = sender@;
    let mut packets: VecDeque<ProtocolPacketData> = VecDeque::new();
    std::mem::swap(&mut packets, &mut sender.sender);
    channel.fill(packets);
    assert(sender@ =~= (QueueView { packets: Seq::empty(), ..before }));
}

/// Puts the packets that a channel holds on their way.
fn drain<Ch: Pump>(receiver: &mut EnginePacketReceiver, channel: &mut Ch, Ghost(key): Ghost<u64>)
    ensures
        put_on_way(
            *old(channel),
            (key, old(receiver)@),
            *final(channel),
            (key, final(receiver)@),
        ),
{
    let ghost before = receiver@;
    let mut packets: VecDeque<ProtocolPacketData> = channel.drain();
    let ghost all = packet_views(packets@);
    let ghost mut i: int = 0;
    assert(before.packets + all.take(0) =~= before.packets);
    assert(packet_views(packets@) =~= all.skip(0));
    loop
        invariant
            before == old(receiver)@,
            0 <= i <= all.len(),
            packet_views(packets@) == all.skip(i),
            receiver@ == (QueueView { packets: before.packets + all.take(i), ..before }),
        ensures
            receiver@ == (QueueView { packets: before.packets + all, ..before }),
        decreases all.len() - i,
    {
        let ghost waiting = packets@;
        let ghost earlier = receiver.receiver@;
        match packets.pop_front() {
            None => {
                assert(packet_views(waiting).len() == 0);
                assert(all.take(i) =~= all);
                break;
            },
            Some(packet) => {
                assert(packet_views(waiting).len() > 0);
                assert(all.skip(i)[0] == all[i]);
                assert(packet@ == packet_views(waiting)[0]);
                assert(packet@ == all[i]);
                receiver.receiver.push_back(packet);
                assert(packet_views(receiver.receiver@) =~= packet_views(earlier).push(all[i]));
                assert(receiver@.packets =~= before.packets + all.take(i + 1));
                assert(packet_views(packets@) =~= packet_views(waiting).skip(1));
                assert(all.skip(i).skip(1) =~= all.skip(i + 1));
                proof {
                    i = i + 1;
                }
            },
        }
    }
}

/// Carries packets between a peer's channels and the ways to and from them. The channels that
/// the peer reads from come first, both in the order of their numbers.
pub fn carry_packets<Ch: Pump>(peer: &mut EnginePeerDescriptor, channels: &mut Vec<Ch>)
    requires
        is_wired(old(peer)@, old(channels)@.len()),
    ensures
        carried(old(peer)@, old(channels)@, final(peer)@, final(channels)@),
{
    let ghost before = peer@;
    let ghost row = channels@;
    let reads: usize = peer.packet_senders.len();
    let writes: usize = peer.packet_receivers.len();
    let total: usize = channels.len();
    let mut k: usize = 0;
    while k < reads
        invariant
            k <= reads,
            reads == before.senders.len(),
            reads == peer.packet_senders@.len(),
            total == row.len(),
            is_wired(before, total as nat),
            channels@.len() == total,
            peer.info == before.info,
            viewed(peer.packet_receivers@) == before.receivers,
            forall|i: int|
                #![trigger viewed(peer.packet_senders@)[i]]
                #![trigger before.senders[i]]
                0 <= i < k ==> viewed(peer.packet_senders@)[i] == cleared(before.senders)[i],
            forall|i: int|
                #![trigger viewed(peer.packet_senders@)[i]]
                #![trigger before.senders[i]]
                k <= i < reads ==> viewed(peer.packet_senders@)[i] == before.senders[i],
            forall|i: int|
                0 <= i < k ==> row[i].filled(
                    before.senders[i].1.packets,
                    #[trigger] channels@[i],
                ),
            forall|i: int| k <= i < total ==> (#[trigger] channels@[i]) == row[i],
        decreases reads - k,
    {
        let ghost entries = peer.packet_senders@;
        assert(viewed(entries)[k as int] == before.senders[k as int]);
        assert(channels@[k as int] == row[k as int]);
        let sender = peer.packet_senders.value_mut(k);
        fill(sender, &mut channels[k]);
        proof {
            lemma_viewed_update(entries, k as int, *sender);
        }
        k = k + 1;
    }
    assert(viewed(peer.packet_senders@) =~= cleared(before.senders));
    let mut j: usize = 0;
    while j < writes
        invariant
            j <= writes,
            writes == before.receivers.len(),
            writes == peer.packet_receivers@.len(),
            reads == before.senders.len(),
            total == row.len(),
            is_wired(before, total as nat),
            channels@.len() == total,
            peer.info == before.info,
            viewed(peer.packet_senders@) == cleared(before.senders),
            forall|i: int|
                #![trigger viewed(peer.packet_receivers@)[i]]
                0 <= i < j ==> put_on_way(
                    row[reads + i],
                    before.receivers[i],
                    channels@[reads + i],
                    viewed(peer.packet_receivers@)[i],
                ),
            forall|i: int|
                #![trigger viewed(peer.packet_receivers@)[i]]
                #![trigger before.receivers[i]]
                j <= i < writes ==> viewed(peer.packet_receivers@)[i] == before.receivers[i],
            forall|i: int|
                0 <= i < reads ==> row[i].filled(
                    before.senders[i].1.packets,
                    #[trigger] channels@[i],
                ),
            forall|i: int| reads + j <= i < total ==> (#[trigger] channels@[i]) == row[i],
        decreases writes - j,
    {
        let ghost entries = peer.packet_receivers@;
        assert(viewed(entries)[j as int] == before.receivers[j as int]);
        assert(channels@[reads + j] == row[reads + j]);
        let receiver = peer.packet_receivers.value_mut(j);
        drain(receiver, &mut channels[reads + j], Ghost(entries[j as int].0));
        proof {
            lemma_viewed_update(entries, j as int, *receiver);
        }
        assert forall|i: int| 0 <= i < j + 1 implies put_on_way(
            row[reads + i],
            before.receivers[i],
            channels@[reads + i],
            #[trigger] viewed(peer.packet_receivers@)[i],
        ) by {
            if i < j {
                assert(viewed(entries)[i] == viewed(peer.packet_receivers@)[i]);
            }
        }
        j = j + 1;
    }
}

/// Whether the channels of a peer of a meeting are wired.
pub open spec fn is_ready<Ch>(
    channels: Seq<(u64, Seq<Ch>)>,
    key: u64,
    peer: DescriptorView,
) -> bool {
    has_key(channels, key) && is_wired(peer, value_of(channels, key)->Some_0.len())
}

/// Whether carrying packets of all peers of a meeting can give these. Peers without channels
/// for all of the ways to and from them are left alone.
pub open spec fn all_carried<Ch: Pump, R, S, D, F>(
    peers: Seq<(u64, DescriptorView)>,
    meeting: MeetingView<Ch, R, S, D, F>,
    peers_after: Seq<(u64, DescriptorView)>,
    meeting_after: MeetingView<Ch, R, S, D, F>,
) -> bool {
    &&& peers_after.len() == peers.len()
    &&& meeting_after == (MeetingView { peers: meeting_after.peers, ..meeting })
    &&& forall|i: int| #![trigger peers_after[i]] 0 <= i < peers.len() ==> peers_after[i].0
        == peers[i].0
    &&& forall|i: int|
        #![trigger peers_after[i]]
        0 <= i < peers.len() ==> if is_ready(meeting.peers, peers[i].0, peers[i].1) {
            carried(
                peers[i].1,
                value_of(meeting.peers, peers[i].0)->Some_0,
                peers_after[i].1,
                value_of(meeting_after.peers, peers[i].0)->Some_0,
            )
        } else {
            peers_after[i].1 == peers[i].1
        }
    &&& forall|key: u64| #[trigger]
        has_key(meeting_after.peers, key) == has_key(meeting.peers, key)
    &&& forall|key: u64|
        (forall|i: int|
            0 <= i < peers.len() && #[trigger] peers[i].0 == key ==> !is_ready(
                meeting.peers,
                key,
                peers[i].1,
            )) ==> #[trigger] value_of(meeting_after.peers, key) == value_of(meeting.peers, key)
}

/// Carries packets between the channels of all peers of a meeting and the ways to and from them.
pub fn carry_all<Ch: Pump, R, S, D, F>(
    peers: &mut OrderedMap<EnginePeerDescriptor>,
    meeting: &mut Meeting<Ch, R, S, D, F>,
) where F: Fn(PeerBuilder<Ch, R, S, D>) -> Result<PeerBuilder<Ch, R, S, D>, Error>
    ensures
        all_carried(viewed(old(peers)@), old(meeting)@, viewed(final(peers)@), final(meeting)@),
{
    let ghost before = viewed(peers@);
    let ghost start = meeting@;
    let total: usize = peers.len();
    proof {
        lemma_same_keys(peers@, before, 0);
    }
    let mut i: usize = 0;
    while i < total
        invariant
            before == viewed(old(peers)@),
            start == old(meeting)@,
            i <= total,
            total == before.len(),
            total == peers@.len(),
            keys_ascend(before),
            meeting@ == (MeetingView { peers: meeting@.peers, ..start }),
            forall|k: int|
                #![trigger viewed(peers@)[k]]
                #![trigger before[k]]
                0 <= k < total ==> viewed(peers@)[k].0 == before[k].0,
            forall|k: int|
                #![trigger viewed(peers@)[k]]
                #![trigger before[k]]
                i <= k < total ==> viewed(peers@)[k] == before[k],
            forall|k: int|
                #![trigger viewed(peers@)[k]]
                0 <= k < i ==> if is_ready(start.peers, before[k].0, before[k].1) {
                    carried(
                        before[k].1,
                        value_of(start.peers, before[k].0)->Some_0,
                        viewed(peers@)[k].1,
                        value_of(meeting@.peers, before[k].0)->Some_0,
                    )
                } else {
                    viewed(peers@)[k].1 == before[k].1
                },
            forall|key: u64| #[trigger] has_key(meeting@.peers, key) == has_key(start.peers, key),
            forall|key: u64|
                (forall|k: int|
                    0 <= k < i && #[trigger] before[k].0 == key ==> !is_ready(
                        start.peers,
                        key,
                        before[k].1,
                    )) ==> #[trigger] value_of(meeting@.peers, key) == value_of(start.peers, key),
        decreases total - i,
    {
        let ghost entries = peers@;
        let ghost state = meeting@;
        let ghost at = i as int;
        assert(viewed(entries)[at] == before[at]);
        let key: u64 = peers.key(i);
        assert(key == before[at].0);
        assert forall|k: int| 0 <= k < total && k != at implies (#[trigger] before[k]).0 != key by {
            if k < at {
                assert(before[k].0 < before[at].0);
            } else {
                assert(before[at].0 < before[k].0);
            }
        }
        assert(value_of(state.peers, key) == value_of(start.peers, key));
        let reads: usize = peers.value(i).packet_senders.len();
        let writes: usize = peers.value(i).packet_receivers.len();
        let ghost peer = before[at].1;
        if let Some(row) = meeting.channels_mut(PeerId(key)) {
            let ghost channels = row@;
            if row.len() >= reads && row.len() - reads == writes {
                let descriptor = peers.value_mut(i);
                carry_packets(descriptor, row);
                proof {
                    lemma_viewed_update(entries, at, *descriptor);
                    assert(is_ready(start.peers, key, peer));
                    assert(carried(peer, channels, descriptor@, row@));
                }
            }
            proof {
                assert forall|other: u64| #[trigger]
                    has_key(meeting@.peers, other) == has_key(state.peers, other) by {
                    law_with_value(state.peers, key, row@, other);
                }
                assert forall|other: u64| other != key implies #[trigger] value_of(
                    meeting@.peers,
                    other,
                ) == value_of(state.peers, other) by {
                    law_with_value(state.peers, key, row@, other);
                }
                law_with_value(state.peers, key, row@, key);
            }
        }
        assert forall|k: int| 0 <= k < i + 1 implies if is_ready(
            start.peers,
            before[k].0,
            before[k].1,
        ) {
            carried(
                before[k].1,
                value_of(start.peers, before[k].0)->Some_0,
                (#[trigger] viewed(peers@)[k]).1,
                value_of(meeting@.peers, before[k].0)->Some_0,
            )
        } else {
            viewed(peers@)[k].1 == before[k].1
        } by {
            if k < i {
                assert(viewed(entries)[k] == viewed(peers@)[k]);
            }
        }
        i = i + 1;
    }
}

/// Carrying packets leaves none behind: what was sent to a peer goes to its channels that read,
/// one queue to one channel, and what its channels wrote goes behind what waits in their queues.
pub proof fn law_carried_packets_leave<Ch: Pump>(
    peer: DescriptorView,
    channels: Seq<Ch>,
    peer_after: DescriptorView,
    channels_after: Seq<Ch>,
    place: int,
)
    requires
        carried(peer, channels, peer_after, channels_after),
    ensures
        peer_after.info == peer.info,
        channels_after.len() == channels.len(),
        peer_after.senders.len() == peer.senders.len(),
        peer_after.receivers.len() == peer.receivers.len(),
        0 <= place < peer.senders.len() ==> {
            &&& peer_after.senders[place].0 == peer.senders[place].0
            &&& peer_after.senders[place].1.mode == peer.senders[place].1.mode
            &&& peer_after.senders[place].1.packets.len() == 0
            &&& channels[place].filled(peer.senders[place].1.packets, channels_after[place])
        },
        0 <= place < peer.receivers.len() ==> {
            let here = peer.senders.len() + place;
            &&& peer_after.receivers[place].0 == peer.receivers[place].0
            &&& peer_after.receivers[place].1.mode == peer.receivers[place].1.mode
            &&& exists|packets: Seq<PacketDataView>|
                {
                    &&& #[trigger] channels[here].drained(channels_after[here], packets)
                    &&& peer_after.receivers[place].1.packets == peer.receivers[place].1.packets
                        + packets
                }
        },
{
    if 0 <= place < peer.receivers.len() {
        let here = peer.senders.len() + place;
        assert(put_on_way(
            channels[here],
            peer.receivers[place],
            channels_after[here],
            peer_after.receivers[place],
        ));
    }
    if 0 <= place < peer.senders.len() {
        let filled = channels_after[place];
    }
}

/// Carrying reaches every peer: one whose channels are wired is carried for, and nothing that was
/// sent to it is left on the way; one whose channels are not is left alone, with what waits.
pub proof fn law_all_peers_are_carried_for<Ch: Pump, R, S, D, F>(
    peers: Seq<(u64, DescriptorView)>,
    meeting: MeetingView<Ch, R, S, D, F>,
    peers_after: Seq<(u64, DescriptorView)>,
    meeting_after: MeetingView<Ch, R, S, D, F>,
    i: int,
    place: int,
)
    requires
        all_carried(peers, meeting, peers_after, meeting_after),
        0 <= i < peers.len(),
    ensures
        peers_after.len() == peers.len(),
        peers_after[i].0 == peers[i].0,
        peers_after[i].1.info == peers[i].1.info,
        is_ready(meeting.peers, peers[i].0, peers[i].1) && 0 <= place < peers[i].1.senders.len()
            ==> peers_after[i].1.senders[place].1.packets.len() == 0,
        !is_ready(meeting.peers, peers[i].0, peers[i].1) ==> peers_after[i] == peers[i],
        meeting_after.user_out == meeting.user_out,
        meeting_after.engine_out == meeting.engine_out,
{
    if is_ready(meeting.peers, peers[i].0, peers[i].1) {
        law_carried_packets_leave(
            peers[i].1,
            value_of(meeting.peers, peers[i].0)->Some_0,
            peers_after[i].1,
            value_of(meeting_after.peers, peers[i].0)->Some_0,
            place,
        );
    }
}

} // verus!
