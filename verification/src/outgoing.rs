//! Frames on their way to machines, some of which may take no more.

use std::collections::VecDeque;
use vstd::prelude::*;

use crate::channel::ChannelId;
use crate::engine::{
    addressed, all_cleared, all_written, cleared, engines_with, packet_views, packets_of, written,
    DescriptorView, EngineId, EnginePeerDescriptor, EngineSession, QueueView, SessionView,
};
use crate::ordered_map::{lemma_viewed_update, viewed, OrderedMap};
use crate::peer::PeerId;
use crate::protocol::{PacketDataView, ProtocolPacketData, RoutedFrame, RoutedFrameView};

verus! {

broadcast use vstd::std_specs::vecdeque::group_vec_dequeue_axioms;

/// Whether a machine is to get a frame, which the one under `except` is not.
pub open spec fn gets(
    engine: (u64, SessionView),
    except: Option<u64>,
    frame: RoutedFrameView,
) -> bool {
    except != Some(engine.0) && frame.is_for(engine.1.engine_id)
}

/// Whether a machine that is to get a frame takes no more frames.
pub open spec fn refused(
    engines: Seq<(u64, SessionView)>,
    except: Option<u64>,
    frame: RoutedFrameView,
) -> bool {
    exists|k: int|
        0 <= k < engines.len() && gets(#[trigger] engines[k], except, frame)
            && engines[k].1.gone
}

/// Where the first machine from a place on stands that is to get a frame and takes no more
/// frames. Behind the last, if there is none.
pub open spec fn first_gone(
    engines: Seq<(u64, SessionView)>,
    except: Option<u64>,
    frame: RoutedFrameView,
    from: int,
) -> int
    decreases engines.len() - from,
{
    if from >= engines.len() {
        engines.len() as int
    } else if gets(engines[from], except, frame) && engines[from].1.gone {
        from
    } else {
        first_gone(engines, except, frame, from + 1)
    }
}

/// The machines once those before the first that takes no more got a frame.
pub open spec fn spread_out(
    engines: Seq<(u64, SessionView)>,
    except: Option<u64>,
    frame: RoutedFrameView,
) -> Seq<(u64, SessionView)> {
    Seq::new(
        engines.len(),
        |k: int|
            (
                engines[k].0,
                if k < first_gone(engines, except, frame, 0) && gets(
                    engines[k],
                    except,
                    frame,
                ) {
                    SessionView { outbox: engines[k].1.outbox.push(frame), ..engines[k].1 }
                } else {
                    engines[k].1
                },
            ),
    )
}

/// Whether all machines that are to get frames take them.
pub open spec fn all_taken(
    engines: Seq<(u64, SessionView)>,
    frames: Seq<RoutedFrameView>,
) -> bool {
    forall|x: int| 0 <= x < frames.len() ==> !refused(engines, None, #[trigger] frames[x])
}

/// The machines once frames were sent, and one more up to the first that takes no more.
pub open spec fn sent_partly(
    engines: Seq<(u64, SessionView)>,
    frames: Seq<RoutedFrameView>,
    frame: RoutedFrameView,
) -> Seq<(u64, SessionView)> {
    spread_out(engines_with(engines, frames), None, frame)
}

/// Whether two lists tell of the same machines, whatever is on the way to them.
pub open spec fn same_machines(
    engines: Seq<(u64, SessionView)>,
    others: Seq<(u64, SessionView)>,
) -> bool {
    &&& engines.len() == others.len()
    &&& forall|k: int|
        0 <= k < engines.len() ==> {
            &&& (#[trigger] engines[k]).0 == others[k].0
            &&& engines[k].1.engine_id == others[k].1.engine_id
            &&& engines[k].1.gone == others[k].1.gone
        }
}

/// What is on the way to machines does not decide who takes frames.
pub(crate) proof fn lemma_same_machines(
    engines: Seq<(u64, SessionView)>,
    others: Seq<(u64, SessionView)>,
    except: Option<u64>,
    frame: RoutedFrameView,
)
    requires
        same_machines(engines, others),
    ensures
        refused(engines, except, frame) == refused(others, except, frame),
{
    if refused(engines, except, frame) {
        let k = choose|k: int|
            0 <= k < engines.len() && gets(#[trigger] engines[k], except, frame)
                && engines[k].1.gone;
        assert(gets(others[k], except, frame) && others[k].1.gone);
    }
    if refused(others, except, frame) {
        let k = choose|k: int|
            0 <= k < others.len() && gets(#[trigger] others[k], except, frame)
                && others[k].1.gone;
        assert(gets(engines[k], except, frame) && engines[k].1.gone);
    }
}

proof fn lemma_first_gone(
    engines: Seq<(u64, SessionView)>,
    except: Option<u64>,
    frame: RoutedFrameView,
    from: int,
)
    requires
        0 <= from <= engines.len(),
    ensures
        from <= first_gone(engines, except, frame, from) <= engines.len(),
        forall|k: int|
            from <= k < first_gone(engines, except, frame, from) ==> !(gets(
                #[trigger] engines[k],
                except,
                frame,
            ) && engines[k].1.gone),
        first_gone(engines, except, frame, from) < engines.len() ==> refused(
            engines,
            except,
            frame,
        ),
        from == 0 && refused(engines, except, frame) ==> first_gone(engines, except, frame, 0)
            < engines.len(),
    decreases engines.len() - from,
{
    if from < engines.len() && !(gets(engines[from], except, frame) && engines[from].1.gone) {
        lemma_first_gone(engines, except, frame, from + 1);
    }
    if from < engines.len() && gets(engines[from], except, frame) && engines[from].1.gone {
        assert(refused(engines, except, frame));
    }
    if from == 0 && refused(engines, except, frame) {
        let k = choose|k: int|
            0 <= k < engines.len() && gets(#[trigger] engines[k], except, frame)
                && engines[k].1.gone;
        assert(k >= first_gone(engines, except, frame, 0));
    }
}

/// A frame that all take reaches all that are to get it.
pub(crate) proof fn lemma_spread_out(
    engines: Seq<(u64, SessionView)>,
    except: Option<u64>,
    frame: RoutedFrameView,
)
    requires
        !refused(engines, except, frame),
    ensures
        first_gone(engines, except, frame, 0) == engines.len(),
        except is None ==> spread_out(engines, except, frame) == engines_with(
            engines,
            seq![frame],
        ),
{
    lemma_first_gone(engines, except, frame, 0);
    if except is None {
        let one = spread_out(engines, except, frame);
        let other = engines_with(engines, seq![frame]);
        assert forall|k: int| 0 <= k < engines.len() implies #[trigger] one[k] == other[k] by {
            lemma_single_addressed(frame, engines[k].1.engine_id);
            assert(one[k].1.outbox =~= other[k].1.outbox);
        }
        assert(one =~= other);
    }
}

/// Who gets a single frame.
pub(crate) proof fn lemma_single_addressed(frame: RoutedFrameView, engine_id: EngineId)
    ensures
        addressed(seq![frame], engine_id) == (if frame.is_for(engine_id) {
            seq![frame]
        } else {
            Seq::<RoutedFrameView>::empty()
        }),
{
    reveal_with_fuel(addressed, 2);
    assert(seq![frame].drop_last() =~= Seq::<RoutedFrameView>::empty());
    assert(addressed(seq![frame], engine_id) =~= (if frame.is_for(engine_id) {
        seq![frame]
    } else {
        Seq::<RoutedFrameView>::empty()
    }));
}

/// Frames that a machine is to get, one list behind the other.
pub(crate) proof fn lemma_addressed_both(
    first: Seq<RoutedFrameView>,
    second: Seq<RoutedFrameView>,
    engine_id: EngineId,
)
    ensures
        addressed(first + second, engine_id) == addressed(first, engine_id) + addressed(
            second,
            engine_id,
        ),
    decreases second.len(),
{
    if second.len() == 0 {
        assert(first + second =~= first);
        assert(addressed(first, engine_id) + Seq::<RoutedFrameView>::empty() =~= addressed(
            first,
            engine_id,
        ));
    } else {
        lemma_addressed_both(first, second.drop_last(), engine_id);
        assert((first + second).drop_last() =~= first + second.drop_last());
        assert(addressed(first + second, engine_id) =~= addressed(first, engine_id) + addressed(
            second,
            engine_id,
        ));
    }
}

/// Frames that are sent behind others.
pub(crate) proof fn lemma_sent_both(
    engines: Seq<(u64, SessionView)>,
    first: Seq<RoutedFrameView>,
    second: Seq<RoutedFrameView>,
)
    ensures
        same_machines(engines, engines_with(engines, first)),
        engines_with(engines_with(engines, first), second) == engines_with(
            engines,
            first + second,
        ),
        all_taken(engines_with(engines, first), second) == all_taken(engines, second),
        all_taken(engines, first) && all_taken(engines, second) ==> all_taken(
            engines,
            first + second,
        ),
{
    let between = engines_with(engines, first);
    let one = engines_with(between, second);
    let other = engines_with(engines, first + second);
    assert forall|k: int| 0 <= k < engines.len() implies #[trigger] one[k] == other[k] by {
        lemma_addressed_both(first, second, engines[k].1.engine_id);
        assert(one[k].1.outbox =~= other[k].1.outbox);
    }
    assert(one =~= other);
    assert forall|x: int| 0 <= x < second.len() implies refused(
        between,
        None,
        #[trigger] second[x],
    ) == refused(engines, None, second[x]) by {
        lemma_same_machines(engines, between, None, second[x]);
    }
    if all_taken(engines, first) && all_taken(engines, second) {
        assert forall|x: int| 0 <= x < (first + second).len() implies !refused(
            engines,
            None,
            #[trigger] (first + second)[x],
        ) by {
            if x < first.len() {
                assert((first + second)[x] == first[x]);
            } else {
                assert((first + second)[x] == second[x - first.len()]);
            }
        }
    }
}

/// Nothing is sent.
pub(crate) proof fn lemma_nothing_sent(engines: Seq<(u64, SessionView)>)
    ensures
        engines_with(engines, Seq::empty()) == engines,
{
    let none = engines_with(engines, Seq::empty());
    assert forall|k: int| 0 <= k < engines.len() implies #[trigger] none[k] == engines[k] by {
        assert(none[k].1.outbox =~= engines[k].1.outbox);
    }
    assert(none =~= engines);
}

/// Gives a frame to the machines that are to get it, but the one under `except`, up to the first
/// that takes no more. Says whether all took it.
pub(crate) fn spread(
    engines: &mut OrderedMap<EngineSession>,
    except: Option<u64>,
    frame: &RoutedFrame,
) -> (result: bool)
    ensures
        result == !refused(viewed(old(engines)@), except, frame@),
        viewed(final(engines)@) == spread_out(viewed(old(engines)@), except, frame@),
{
    let ghost before = viewed(engines@);
    let ghost end = first_gone(before, except, frame@, 0);
    let ghost after = spread_out(before, except, frame@);
    let total: usize = engines.len();
    let mut i: usize = 0;
    proof {
        lemma_first_gone(before, except, frame@, 0);
    }
    while i < total
        invariant
            before == viewed(old(engines)@),
            i <= total,
            total == engines@.len(),
            total == before.len(),
            end == first_gone(before, except, frame@, i as int),
            end == first_gone(before, except, frame@, 0),
            i <= end <= total,
            (end < total) == refused(before, except, frame@),
            after == spread_out(before, except, frame@),
            forall|k: int|
                #![trigger viewed(engines@)[k]]
                #![trigger before[k]]
                0 <= k < i ==> viewed(engines@)[k] == after[k],
            forall|k: int|
                #![trigger viewed(engines@)[k]]
                #![trigger before[k]]
                i <= k < total ==> viewed(engines@)[k] == before[k],
        decreases total - i,
    {
        let ghost entries = engines@;
        assert(viewed(entries)[i as int] == before[i as int]);
        let key: u64 = engines.key(i);
        let excepted: bool = match except {
            Some(other) => other == key,
            None => false,
        };
        let engine_id: EngineId = engines.value(i).engine_id;
        if !excepted && frame.is_for(engine_id) {
            assert(gets(before[i as int], except, frame@));
            if engines.value(i).gone {
                assert(end == i);
                assert(viewed(engines@) =~= after);
                return false;
            }
            proof {
                lemma_first_gone(before, except, frame@, i + 1);
            }
            let session = engines.value_mut(i);
            session.send(frame.copy());
            proof {
                lemma_viewed_update(entries, i as int, engines@[i as int].1);
            }
            assert(viewed(engines@)[i as int].1 == (SessionView {
                outbox: before[i as int].1.outbox.push(frame@),
                ..before[i as int].1
            }));
        } else {
            assert(!gets(before[i as int], except, frame@));
            proof {
                lemma_first_gone(before, except, frame@, i + 1);
            }
        }
        i = i + 1;
    }
    assert(viewed(engines@) =~= after);
    true
}

/// The ways from the channels of a peer, once those before one have no packets left and that one
/// has the first of its packets behind it.
pub open spec fn receivers_left(
    receivers: Seq<(u64, QueueView)>,
    place: int,
    count: int,
) -> Seq<(u64, QueueView)> {
    Seq::new(
        receivers.len(),
        |j: int|
            (
                receivers[j].0,
                QueueView {
                    packets: if j < place {
                        Seq::empty()
                    } else if j == place {
                        receivers[j].1.packets.skip(count)
                    } else {
                        receivers[j].1.packets
                    },
                    ..receivers[j].1
                },
            ),
    )
}

/// The peers, once those before one have no packets left on the ways from them, and that one has
/// some left.
pub open spec fn peers_left(
    peers: Seq<(u64, DescriptorView)>,
    peer: int,
    place: int,
    count: int,
) -> Seq<(u64, DescriptorView)> {
    Seq::new(
        peers.len(),
        |i: int|
            (
                peers[i].0,
                DescriptorView {
                    receivers: if i < peer {
                        cleared(peers[i].1.receivers)
                    } else if i == peer {
                        receivers_left(peers[i].1.receivers, place, count)
                    } else {
                        peers[i].1.receivers
                    },
                    ..peers[i].1
                },
            ),
    )
}

/// The frames from a channel before one of its packets.
pub open spec fn frames_before(
    peer_id: PeerId,
    receivers: Seq<(u64, QueueView)>,
    place: int,
    count: int,
) -> Seq<RoutedFrameView> {
    written(peer_id, receivers.take(place)) + packets_of(
        peer_id,
        ChannelId(receivers[place].0),
        receivers[place].1.packets.take(count),
    )
}

/// A packet of a channel as a frame.
pub open spec fn frame_at(
    peer_id: PeerId,
    receivers: Seq<(u64, QueueView)>,
    place: int,
    count: int,
) -> RoutedFrameView {
    RoutedFrameView::Packet(
        peer_id,
        ChannelId(receivers[place].0),
        receivers[place].1.packets[count],
    )
}

/// Whether the packet of a channel behind `count` others is the first of a peer that a machine
/// does not take.
pub open spec fn peer_stuck_at(
    engines: Seq<(u64, SessionView)>,
    peer_id: PeerId,
    receivers: Seq<(u64, QueueView)>,
    place: int,
    count: int,
) -> bool {
    &&& 0 <= place < receivers.len()
    &&& 0 <= count < receivers[place].1.packets.len()
    &&& all_taken(engines, frames_before(peer_id, receivers, place, count))
    &&& refused(engines, None, frame_at(peer_id, receivers, place, count))
}

/// Whether a packet of a peer is the first of all that a machine does not take.
pub open spec fn sending_stuck_at(
    engines: Seq<(u64, SessionView)>,
    peers: Seq<(u64, DescriptorView)>,
    peer: int,
    place: int,
    count: int,
) -> bool {
    &&& 0 <= peer < peers.len()
    &&& all_taken(engines, all_written(peers.take(peer)))
    &&& peer_stuck_at(
        engines,
        peers[peer].1.info.peer_id,
        peers[peer].1.receivers,
        place,
        count,
    )
}

/// Sends the packets of a channel, up to the first that a machine does not take. Says whether all
/// were taken.
fn send_queue(
    queue: &mut VecDeque<ProtocolPacketData>,
    peer_id: PeerId,
    channel_id: ChannelId,
    engines: &mut OrderedMap<EngineSession>,
) -> (result: bool)
    ensures
        ({
            let packets = packet_views(old(queue)@);
            let before = viewed(old(engines)@);
            if result {
                &&& all_taken(before, packets_of(peer_id, channel_id, packets))
                &&& packet_views(final(queue)@) == Seq::<PacketDataView>::empty()
                &&& viewed(final(engines)@) == engines_with(
                    before,
                    packets_of(peer_id, channel_id, packets),
                )
            } else {
                exists|n: int|
                    {
                        &&& 0 <= n < packets.len()
                        &&& all_taken(before, packets_of(peer_id, channel_id, packets.take(n)))
                        &&& refused(
                            before,
                            None,
                            RoutedFrameView::Packet(peer_id, channel_id, #[trigger] packets[n]),
                        )
                        &&& packet_views(final(queue)@) == packets.skip(n + 1)
                        &&& viewed(final(engines)@) == sent_partly(
                            before,
                            packets_of(peer_id, channel_id, packets.take(n)),
                            RoutedFrameView::Packet(peer_id, channel_id, packets[n]),
                        )
                    }
            }
        }),
{
    let ghost packets = packet_views(queue@);
    let ghost before = viewed(engines@);
    let count: usize = queue.len();
    let mut n: usize = 0;
    assert(packets.skip(0) =~= packets);
    assert(packets_of(peer_id, channel_id, packets.take(0)) =~= Seq::<RoutedFrameView>::empty());
    proof {
        lemma_nothing_sent(before);
    }
    while n < count
        invariant
            packets == packet_views(old(queue)@),
            before == viewed(old(engines)@),
            n <= count,
            count == packets.len(),
            packet_views(queue@) == packets.skip(n as int),
            all_taken(before, packets_of(peer_id, channel_id, packets.take(n as int))),
            viewed(engines@) == engines_with(
                before,
                packets_of(peer_id, channel_id, packets.take(n as int)),
            ),
        decreases count - n,
    {
        let ghost rest = queue@;
        let ghost sent = packets_of(peer_id, channel_id, packets.take(n as int));
        let ghost frame = RoutedFrameView::Packet(peer_id, channel_id, packets[n as int]);
        let ghost more = packets_of(peer_id, channel_id, packets.take(n + 1));
        assert(packet_views(rest).len() == packets.len() - n);
        assert(more =~= sent + seq![frame]);
        proof {
            lemma_sent_both(before, sent, seq![frame]);
            lemma_same_machines(before, engines_with(before, sent), None, frame);
        }
        if let Some(packet) = queue.pop_front() {
            assert(packet@ == packets.skip(n as int)[0]);
            assert forall|x: int| 0 <= x < queue@.len() implies packet_views(queue@)[x]
                == #[trigger] packets.skip(n + 1)[x] by {
                assert(packet_views(rest)[x + 1] == packets.skip(n as int)[x + 1]);
            }
            assert(packet_views(queue@) =~= packets.skip(n + 1));
            let next = RoutedFrame::Packet(peer_id, channel_id, packet);
            assert(next@ == frame);
            if !spread(engines, None, &next) {
                return false;
            }
            proof {
                lemma_spread_out(engines_with(before, sent), None, frame);
                assert(all_taken(before, seq![frame]));
            }
        }
        n = n + 1;
    }
    assert(packets.take(n as int) =~= packets);
    assert(packet_views(queue@) =~= Seq::<PacketDataView>::empty());
    true
}

/// Sends the packets of all channels of a peer, up to the first that a machine does not take.
/// Says whether all were taken.
fn send_peer(
    descriptor: &mut EnginePeerDescriptor,
    engines: &mut OrderedMap<EngineSession>,
) -> (result: bool)
    ensures
        ({
            let peer = old(descriptor)@;
            let peer_id = peer.info.peer_id;
            let before = viewed(old(engines)@);
            if result {
                &&& all_taken(before, written(peer_id, peer.receivers))
                &&& final(descriptor)@ == (DescriptorView {
                    receivers: cleared(peer.receivers),
                    ..peer
                })
                &&& viewed(final(engines)@) == engines_with(
                    before,
                    written(peer_id, peer.receivers),
                )
            } else {
                exists|place: int, count: int|
                    {
                        &&& #[trigger] peer_stuck_at(
                            before,
                            peer_id,
                            peer.receivers,
                            place,
                            count,
                        )
                        &&& final(descriptor)@ == (DescriptorView {
                            receivers: receivers_left(peer.receivers, place, count + 1),
                            ..peer
                        })
                        &&& viewed(final(engines)@) == sent_partly(
                            before,
                            frames_before(peer_id, peer.receivers, place, count),
                            frame_at(peer_id, peer.receivers, place, count),
                        )
                    }
            }
        }),
{
    let ghost peer = descriptor@;
    let ghost receivers = peer.receivers;
    let ghost before = viewed(engines@);
    let peer_id: PeerId = descriptor.info.peer_id;
    let total: usize = descriptor.packet_receivers.len();
    let mut j: usize = 0;
    proof {
        lemma_nothing_sent(before);
        assert(receivers.take(0) =~= Seq::<(u64, QueueView)>::empty());
    }
    while j < total
        invariant
            peer == old(descriptor)@,
            receivers == peer.receivers,
            before == viewed(old(engines)@),
            j <= total,
            total == receivers.len(),
            total == descriptor.packet_receivers@.len(),
            peer_id == peer.info.peer_id,
            descriptor.info == peer.info,
            viewed(descriptor.packet_senders@) == peer.senders,
            forall|k: int|
                #![trigger viewed(descriptor.packet_receivers@)[k]]
                #![trigger receivers[k]]
                0 <= k < j ==> viewed(descriptor.packet_receivers@)[k] == cleared(receivers)[k],
            forall|k: int|
                #![trigger viewed(descriptor.packet_receivers@)[k]]
                #![trigger receivers[k]]
                j <= k < total ==> viewed(descriptor.packet_receivers@)[k] == receivers[k],
            all_taken(before, written(peer_id, receivers.take(j as int))),
            viewed(engines@) == engines_with(before, written(peer_id, receivers.take(j as int))),
        decreases total - j,
    {
        let ghost entries = descriptor.packet_receivers@;
        let ghost earlier = written(peer_id, receivers.take(j as int));
        let ghost packets = receivers[j as int].1.packets;
        assert(viewed(entries)[j as int] == receivers[j as int]);
        let channel_id = ChannelId(descriptor.packet_receivers.key(j));
        let receiver = descriptor.packet_receivers.value_mut(j);
        let ghost between = viewed(engines@);
        let all = send_queue(&mut receiver.receiver, peer_id, channel_id, engines);
        let ghost frames = packets_of(peer_id, channel_id, packets);
        proof {
            lemma_sent_both(before, earlier, frames);
            lemma_viewed_update(entries, j as int, *receiver);
        }
        if !all {
            proof {
                let n = choose|n: int|
                    {
                        &&& 0 <= n < packets.len()
                        &&& all_taken(between, packets_of(peer_id, channel_id, packets.take(n)))
                        &&& refused(
                            between,
                            None,
                            RoutedFrameView::Packet(peer_id, channel_id, #[trigger] packets[n]),
                        )
                        &&& packet_views(receiver.receiver@) == packets.skip(n + 1)
                        &&& viewed(engines@) == sent_partly(
                            between,
                            packets_of(peer_id, channel_id, packets.take(n)),
                            RoutedFrameView::Packet(peer_id, channel_id, packets[n]),
                        )
                    };
                let some = packets_of(peer_id, channel_id, packets.take(n));
                let frame = RoutedFrameView::Packet(peer_id, channel_id, packets[n]);
                lemma_sent_both(before, earlier, some);
                lemma_same_machines(before, between, None, frame);
                assert(frames_before(peer_id, receivers, j as int, n) == earlier + some);
                assert(frame_at(peer_id, receivers, j as int, n) == frame);
                assert(peer_stuck_at(before, peer_id, receivers, j as int, n));
                let left = receivers_left(receivers, j as int, n + 1);
                assert(viewed(descriptor.packet_receivers@) =~= left);
                assert(descriptor@ =~= (DescriptorView { receivers: left, ..peer }));
            }
            return false;
        }
        assert(receiver@ =~= cleared(receivers)[j as int].1);
        assert(receivers.take(j + 1).drop_last() =~= receivers.take(j as int));
        assert(written(peer_id, receivers.take(j + 1)) == earlier + frames);
        j = j + 1;
    }
    assert(receivers.take(j as int) =~= receivers);
    assert(viewed(descriptor.packet_receivers@) =~= cleared(receivers));
    assert(descriptor@ =~= (DescriptorView { receivers: cleared(receivers), ..peer }));
    true
}

/// Sends the packets of all peers, up to the first that a machine does not take. Says whether all
/// were taken.
pub(crate) fn send_all(
    peers: &mut OrderedMap<EnginePeerDescriptor>,
    engines: &mut OrderedMap<EngineSession>,
) -> (result: bool)
    ensures
        ({
            let all = viewed(old(peers)@);
            let before = viewed(old(engines)@);
            if result {
                &&& all_taken(before, all_written(all))
                &&& viewed(final(peers)@) == all_cleared(all)
                &&& viewed(final(engines)@) == engines_with(before, all_written(all))
            } else {
                exists|peer: int, place: int, count: int|
                    {
                        &&& #[trigger] sending_stuck_at(before, all, peer, place, count)
                        &&& viewed(final(peers)@) == peers_left(all, peer, place, count + 1)
                        &&& viewed(final(engines)@) == sent_partly(
                            before,
                            all_written(all.take(peer)) + frames_before(
                                all[peer].1.info.peer_id,
                                all[peer].1.receivers,
                                place,
                                count,
                            ),
                            frame_at(
                                all[peer].1.info.peer_id,
                                all[peer].1.receivers,
                                place,
                                count,
                            ),
                        )
                    }
            }
        }),
{
    let ghost all = viewed(peers@);
    let ghost before = viewed(engines@);
    let total: usize = peers.len();
    let mut i: usize = 0;
    proof {
        lemma_nothing_sent(before);
        assert(all.take(0) =~= Seq::<(u64, DescriptorView)>::empty());
    }
    while i < total
        invariant
            all == viewed(old(peers)@),
            before == viewed(old(engines)@),
            i <= total,
            total == all.len(),
            total == peers@.len(),
            forall|k: int|
                #![trigger viewed(peers@)[k]]
                #![trigger all[k]]
                0 <= k < i ==> viewed(peers@)[k] == all_cleared(all)[k],
            forall|k: int|
                #![trigger viewed(peers@)[k]]
                #![trigger all[k]]
                i <= k < total ==> viewed(peers@)[k] == all[k],
            all_taken(before, all_written(all.take(i as int))),
            viewed(engines@) == engines_with(before, all_written(all.take(i as int))),
        decreases total - i,
    {
        let ghost entries = peers@;
        let ghost earlier = all_written(all.take(i as int));
        let ghost peer = all[i as int].1;
        let ghost between = viewed(engines@);
        assert(viewed(entries)[i as int] == all[i as int]);
        let descriptor = peers.value_mut(i);
        let taken = send_peer(descriptor, engines);
        proof {
            lemma_sent_both(before, earlier, written(peer.info.peer_id, peer.receivers));
            lemma_viewed_update(entries, i as int, *descriptor);
        }
        if !taken {
            proof {
                let (place, count) = choose|place: int, count: int|
                    {
                        &&& #[trigger] peer_stuck_at(
                            between,
                            peer.info.peer_id,
                            peer.receivers,
                            place,
                            count,
                        )
                        &&& descriptor@ == (DescriptorView {
                            receivers: receivers_left(peer.receivers, place, count + 1),
                            ..peer
                        })
                        &&& viewed(engines@) == sent_partly(
                            between,
                            frames_before(peer.info.peer_id, peer.receivers, place, count),
                            frame_at(peer.info.peer_id, peer.receivers, place, count),
                        )
                    };
                let some = frames_before(peer.info.peer_id, peer.receivers, place, count);
                let frame = frame_at(peer.info.peer_id, peer.receivers, place, count);
                lemma_sent_both(before, earlier, some);
                lemma_same_machines(before, between, None, frame);
                assert(sending_stuck_at(before, all, i as int, place, count));
                let left = peers_left(all, i as int, place, count + 1);
                assert(viewed(peers@) =~= left);
            }
            return false;
        }
        assert(all.take(i + 1).drop_last() =~= all.take(i as int));
        i = i + 1;
    }
    assert(all.take(i as int) =~= all);
    assert(viewed(peers@) =~= all_cleared(all));
    true
}

proof fn lemma_stops_at_the_gone(
    engines: Seq<(u64, SessionView)>,
    except: Option<u64>,
    frame: RoutedFrameView,
    from: int,
)
    requires
        0 <= from <= engines.len(),
    ensures
        ({
            let first = first_gone(engines, except, frame, from);
            first < engines.len() ==> from <= first && gets(engines[first], except, frame)
                && engines[first].1.gone
        }),
    decreases engines.len() - from,
{
    if from < engines.len() && !(gets(engines[from], except, frame) && engines[from].1.gone) {
        lemma_stops_at_the_gone(engines, except, frame, from + 1);
    }
}

/// A frame that is spread out goes to each machine that it is for, but for the one that is left
/// out, as long as these take frames. The first of them that takes no more stops it: machines
/// before that have it, those behind do not, and it counts as refused.
pub proof fn law_spread_up_to_the_first_gone(
    engines: Seq<(u64, SessionView)>,
    except: Option<u64>,
    frame: RoutedFrameView,
    place: int,
)
    requires
        0 <= place < engines.len(),
    ensures
        ({
            let after = spread_out(engines, except, frame);
            let wanted = except != Some(engines[place].0) && frame.is_for(
                engines[place].1.engine_id,
            );
            let stopped = exists|k: int|
                #![trigger engines[k]]
                {
                    &&& 0 <= k <= place
                    &&& except != Some(engines[k].0)
                    &&& frame.is_for(engines[k].1.engine_id)
                    &&& engines[k].1.gone
                };
            &&& after.len() == engines.len()
            &&& after[place].0 == engines[place].0
            &&& after[place].1.inbox == engines[place].1.inbox
            &&& wanted && !stopped ==> after[place].1.outbox == engines[place].1.outbox.push(frame)
            &&& !wanted || stopped ==> after[place].1.outbox == engines[place].1.outbox
            &&& stopped ==> refused(engines, except, frame)
        }),
{
    lemma_first_gone(engines, except, frame, 0);
    lemma_stops_at_the_gone(engines, except, frame, 0);
    let first = first_gone(engines, except, frame, 0);
    if first <= place {
        assert(gets(engines[first], except, frame) && engines[first].1.gone);
    }
    if exists|k: int|
        #![trigger engines[k]]
        {
            &&& 0 <= k <= place
            &&& except != Some(engines[k].0)
            &&& frame.is_for(engines[k].1.engine_id)
            &&& engines[k].1.gone
        } {
        let k = choose|k: int|
            #![trigger engines[k]]
            {
                &&& 0 <= k <= place
                &&& except != Some(engines[k].0)
                &&& frame.is_for(engines[k].1.engine_id)
                &&& engines[k].1.gone
            };
        assert(gets(engines[k], except, frame));
        assert(first <= k);
    }
}

/// A frame is refused exactly if one of the machines that it is to go to takes no more.
pub proof fn law_refused_by_the_gone(
    engines: Seq<(u64, SessionView)>,
    except: Option<u64>,
    frame: RoutedFrameView,
)
    ensures
        refused(engines, except, frame) <==> exists|k: int|
            #![trigger engines[k]]
            {
                &&& 0 <= k < engines.len()
                &&& except != Some(engines[k].0)
                &&& frame.is_for(engines[k].1.engine_id)
                &&& engines[k].1.gone
            },
{
    if exists|k: int|
        #![trigger engines[k]]
        {
            &&& 0 <= k < engines.len()
            &&& except != Some(engines[k].0)
            &&& frame.is_for(engines[k].1.engine_id)
            &&& engines[k].1.gone
        } {
        let k = choose|k: int|
            #![trigger engines[k]]
            {
                &&& 0 <= k < engines.len()
                &&& except != Some(engines[k].0)
                &&& frame.is_for(engines[k].1.engine_id)
                &&& engines[k].1.gone
            };
        assert(gets(engines[k], except, frame));
    }
    if refused(engines, except, frame) {
        let k = choose|k: int|
            0 <= k < engines.len() && gets(#[trigger] engines[k], except, frame)
                && engines[k].1.gone;
        assert(engines[k].1.gone);
    }
}

/// Where sending stops at a packet, that packet and all before it have left their queues, those
/// of earlier peers and channels included, and all behind it wait on.
pub proof fn law_packets_behind_wait_on(
    peers: Seq<(u64, DescriptorView)>,
    peer: int,
    place: int,
    count: int,
    other: int,
    channel: int,
)
    requires
        0 <= other < peers.len(),
        0 <= channel < peers[other].1.receivers.len(),
    ensures
        ({
            let before = peers[other].1.receivers[channel];
            let after = peers_left(peers, peer, place, count);
            let left = after[other].1.receivers[channel];
            &&& after.len() == peers.len()
            &&& after[other].0 == peers[other].0
            &&& after[other].1.info == peers[other].1.info
            &&& after[other].1.senders == peers[other].1.senders
            &&& left.0 == before.0
            &&& left.1.mode == before.1.mode
            &&& other < peer || other == peer && channel < place ==> left.1.packets.len() == 0
            &&& other == peer && channel == place ==> left.1.packets == before.1.packets.skip(count)
            &&& other > peer || other == peer && channel > place ==> left.1.packets
                == before.1.packets
        }),
{
}

proof fn lemma_nothing_written(peer_id: PeerId, receivers: Seq<(u64, QueueView)>)
    requires
        forall|j: int| 0 <= j < receivers.len() ==> (#[trigger] receivers[j]).1.packets.len() == 0,
    ensures
        written(peer_id, receivers) == Seq::<RoutedFrameView>::empty(),
    decreases receivers.len(),
{
    if receivers.len() > 0 {
        assert forall|j: int| 0 <= j < receivers.drop_last().len() implies (
        #[trigger] receivers.drop_last()[j]).1.packets.len() == 0 by {
            assert(receivers.drop_last()[j] == receivers[j]);
        }
        lemma_nothing_written(peer_id, receivers.drop_last());
        assert(receivers[receivers.len() - 1].1.packets.len() == 0);
        assert(written(peer_id, receivers) =~= Seq::<RoutedFrameView>::empty());
    }
}

/// However far the channels of a peer were emptied, the packets that left and those that are left
/// make up all that there were, in their order: none is lost and none is sent twice. The next one
/// to leave is the one behind those that left.
pub proof fn law_left_and_sent_make_all(
    peer_id: PeerId,
    receivers: Seq<(u64, QueueView)>,
    place: int,
    count: int,
)
    requires
        0 <= place < receivers.len(),
        0 <= count <= receivers[place].1.packets.len(),
    ensures
        frames_before(peer_id, receivers, place, count) + written(
            peer_id,
            receivers_left(receivers, place, count),
        ) == written(peer_id, receivers),
        count < receivers[place].1.packets.len() ==> frames_before(
            peer_id,
            receivers,
            place,
            count + 1,
        ) == frames_before(peer_id, receivers, place, count).push(
            frame_at(peer_id, receivers, place, count),
        ),
    decreases receivers.len(),
{
    let left = receivers_left(receivers, place, count);
    let before = frames_before(peer_id, receivers, place, count);
    if place == receivers.len() - 1 {
        assert(receivers.take(place) =~= receivers.drop_last());
        lemma_nothing_written(peer_id, left.drop_last());
        assert(before + written(peer_id, left) =~= written(peer_id, receivers));
    } else {
        let fewer = receivers.drop_last();
        law_left_and_sent_make_all(peer_id, fewer, place, count);
        assert(fewer.take(place) =~= receivers.take(place));
        assert(left.drop_last() =~= receivers_left(fewer, place, count));
        assert(before + written(peer_id, left) =~= written(peer_id, receivers));
    }
    if count < receivers[place].1.packets.len() {
        assert(frames_before(peer_id, receivers, place, count + 1) =~= before.push(
            frame_at(peer_id, receivers, place, count),
        ));
    }
}

/// However far the peers were served, the packets that left and those that are left make up all
/// that there were, in the order of the peers.
pub proof fn law_peers_left_and_sent_make_all(
    peers: Seq<(u64, DescriptorView)>,
    peer: int,
    place: int,
    count: int,
)
    requires
        0 <= peer < peers.len(),
        0 <= place < peers[peer].1.receivers.len(),
        0 <= count <= peers[peer].1.receivers[place].1.packets.len(),
    ensures
        all_written(peers.take(peer)) + frames_before(
            peers[peer].1.info.peer_id,
            peers[peer].1.receivers,
            place,
            count,
        ) + all_written(peers_left(peers, peer, place, count)) == all_written(peers),
    decreases peers.len(),
{
    let left = peers_left(peers, peer, place, count);
    let sent = frames_before(peers[peer].1.info.peer_id, peers[peer].1.receivers, place, count);
    let earlier = all_written(peers.take(peer));
    if peer == peers.len() - 1 {
        assert(peers.take(peer) =~= peers.drop_last());
        law_left_and_sent_make_all(
            peers[peer].1.info.peer_id,
            peers[peer].1.receivers,
            place,
            count,
        );
        lemma_all_cleared_write_nothing(left.drop_last());
        assert(left.last() == left[peer]);
        assert(earlier + sent + all_written(left) =~= earlier + (sent + written(
            left.last().1.info.peer_id,
            left.last().1.receivers,
        )));
    } else {
        let fewer = peers.drop_last();
        law_peers_left_and_sent_make_all(fewer, peer, place, count);
        assert(fewer.take(peer) =~= peers.take(peer));
        assert(left.drop_last() =~= peers_left(fewer, peer, place, count));
        assert(left.last() == peers.last());
        assert(earlier + sent + all_written(left) =~= all_written(peers));
    }
}

proof fn lemma_all_cleared_write_nothing(peers: Seq<(u64, DescriptorView)>)
    requires
        forall|i: int, j: int|
            0 <= i < peers.len() && 0 <= j < peers[i].1.receivers.len() ==> (
            #[trigger] peers[i].1.receivers[j]).1.packets.len() == 0,
    ensures
        all_written(peers) == Seq::<RoutedFrameView>::empty(),
    decreases peers.len(),
{
    if peers.len() > 0 {
        let fewer = peers.drop_last();
        assert forall|i: int, j: int|
            0 <= i < fewer.len() && 0 <= j < fewer[i].1.receivers.len() implies (
        #[trigger] fewer[i].1.receivers[j]).1.packets.len() == 0 by {
            assert(peers[i].1.receivers[j].1.packets.len() == 0);
        }
        lemma_all_cleared_write_nothing(fewer);
        let last = peers[peers.len() - 1].1;
        assert forall|j: int| 0 <= j < last.receivers.len() implies (
        #[trigger] last.receivers[j]).1.packets.len() == 0 by {
            assert(peers[peers.len() - 1].1.receivers[j].1.packets.len() == 0);
        }
        lemma_nothing_written(last.info.peer_id, last.receivers);
        assert(all_written(peers) =~= Seq::<RoutedFrameView>::empty());
    }
}

} // verus!
