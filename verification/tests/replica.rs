use tehuti::buffer::Buffer;
use tehuti::channel::{Channel, ChannelId, ChannelMode, Dispatch};
use tehuti::codec::replicable::RepCodec;
use tehuti::codec::Codec;
use tehuti::engine::EngineId;
use tehuti::error::Error;
use tehuti::peer::{Peer, PeerBuildResult, PeerBuilder, PeerId, PeerInfo, PeerRoleId};
use tehuti::protocol::ProtocolPacketData;
use tehuti::replica::{
    RawReplicationBuffer, Replica, ReplicaCollectChanges, ReplicaId, ReplicaSet,
    ReplicationBuffer,
};
use tehuti::replication::rpc::{Rpc, RpcPartialDecoder};
use tehuti::replication::{HashReplicated, ManReplicated};
use tehuti::wiring::carry_packets;

type Ch = Channel<ReplicationBuffer>;

const BUFFERS: u64 = 1;
const GREET: u64 = 77;

fn builder() -> PeerBuilder<Ch, (), (), u8> {
    PeerBuilder::new(Peer::new(PeerInfo {
        peer_id: PeerId::new(0),
        role_id: PeerRoleId::new(0),
        remote: false,
    }))
}

fn both_ways() -> PeerBuildResult<Ch, (), (), u8> {
    builder()
        .bind_read_write(
            ChannelId::new(0),
            ChannelMode::ReliableOrdered,
            None,
            Channel::read(),
            Channel::write(),
            BUFFERS,
            (),
            (),
        )
        .build()
}

/// The packet in which a message comes out of a peer.
fn packet_of(
    built: &mut PeerBuildResult<Ch, (), (), u8>,
    dispatch: Dispatch<ReplicationBuffer>,
) -> ProtocolPacketData {
    built.channels[1].push_message(dispatch);
    built.channels[1].pump_all().unwrap();
    carry_packets(&mut built.descriptor, &mut built.channels);
    built
        .descriptor
        .packet_receivers
        .value_mut(0)
        .receiver
        .pop_front()
        .unwrap()
}

/// The message that a packet brings to a peer.
fn message_of(
    built: &mut PeerBuildResult<Ch, (), (), u8>,
    packet: ProtocolPacketData,
) -> Dispatch<ReplicationBuffer> {
    built
        .descriptor
        .packet_senders
        .value_mut(0)
        .sender
        .push_back(packet);
    carry_packets(&mut built.descriptor, &mut built.channels);
    built.channels[0].pump_all().unwrap();
    built.channels[0].take_message().unwrap()
}

#[test]
fn test_replica_set_bind_unbind() {
    let peer_a = builder()
        .bind_write(
            ChannelId::new(0),
            ChannelMode::ReliableOrdered,
            None,
            Channel::write(),
            BUFFERS,
            (),
        )
        .build()
        .peer;

    let peer_b = builder()
        .bind_read(
            ChannelId::new(0),
            ChannelMode::ReliableOrdered,
            None,
            Channel::read(),
            BUFFERS,
            (),
        )
        .build()
        .peer;

    let mut set = ReplicaSet::default();
    set.bind_peer(&peer_a, Some(ChannelId::new(0)), None, BUFFERS);

    assert!(set.writes_changes());
    assert!(!set.reads_changes());

    set.bind_peer(&peer_b, Some(ChannelId::new(0)), None, BUFFERS);
    assert!(!set.writes_changes());
    assert!(set.reads_changes());

    set.unbind();
    assert!(!set.writes_changes());
    assert!(!set.reads_changes());
}

#[test]
fn test_replica_changes() {
    let mut built = both_ways();

    let mut data = HashReplicated::new(42u32);
    let mut set = ReplicaSet::default();
    set.bind_peer(&built.peer, Some(ChannelId::new(0)), None, BUFFERS);
    let replica = set.create(ReplicaId::new(0)).unwrap();

    // Collect changes and send them over the channel.
    let mut changes = replica.collect_changes();
    changes.scope().collect_replicated(&mut data).unwrap();
    assert!(replica.send_changes(&mut set, changes));

    // Pump the channels.
    set.maintain();
    let change = set.take_change().unwrap();
    let packet = packet_of(&mut built, change);
    assert_eq!(packet.data.len(), 17);

    let change = message_of(&mut built, packet);
    assert!(set.push_change(change));
    set.maintain();

    *data.deref_mut() = 0;
    assert_eq!(*data.deref(), 0);

    // Apply changes received from the channel.
    replica
        .apply_changes(&mut set)
        .unwrap()
        .scope()
        .apply_replicated(&mut data)
        .unwrap();
    assert_eq!(*data.deref(), 42);
}

#[test]
fn test_replica_rpc() {
    fn greet(name: &str) {
        println!("Hello, {}!", name);
    }

    let mut built = both_ways();

    let mut set = ReplicaSet::default();
    set.bind_peer(&built.peer, None, Some(ChannelId::new(0)), BUFFERS);
    let replica = set.create(ReplicaId::new(0)).unwrap();

    // Send an RPC over the channel.
    replica
        .rpc_sender()
        .send(
            &mut set,
            Rpc::<(), RepCodec<String>, GREET>::new("greet".to_owned(), "Alice".to_owned()),
        )
        .unwrap();

    // Pump the channels.
    set.maintain();
    let call = set.take_rpc().unwrap();
    let packet = packet_of(&mut built, call);
    assert_eq!(packet.data.len(), 61);

    let call = message_of(&mut built, packet);
    assert!(set.push_rpc(call));
    set.maintain();

    // Receive the RPC.
    let rpc = replica
        .rpc_receive(&mut set)
        .unwrap()
        .unwrap()
        .complete::<(), RepCodec<String>, GREET>()
        .unwrap();
    let (call, input) = rpc.call().unwrap();
    assert_eq!(call.procedure(), "greet");
    assert_eq!(input.as_str(), "Alice");

    // Execute the RPC.
    greet(&input);
    call.respond(()).result().unwrap();
}

#[test]
fn test_raw_replication_buffer() {
    let mut buffer = RawReplicationBuffer::default();
    assert_eq!(buffer.size(), 0);
    buffer
        .collect_changes_scope()
        .collect_replicable(&42usize)
        .unwrap();
    assert_eq!(buffer.size(), 1);
    buffer
        .rpc_encode(Rpc::<(), RepCodec<String>, GREET>::new(
            "test".to_owned(),
            "Hello".to_owned(),
        ))
        .unwrap();
    assert_eq!(buffer.size(), 49);

    let mut buffer = RawReplicationBuffer::new(buffer.into_inner());
    assert_eq!(buffer.size(), 49);
    let mut value = 0usize;
    buffer
        .apply_changes_scope()
        .apply_replicable(&mut value)
        .unwrap();
    assert_eq!(value, 42);
    let rpc = buffer.rpc_decode().unwrap();
    assert_eq!(rpc.procedure(), "test");
    let (_, input) = rpc
        .complete::<(), RepCodec<String>, GREET>()
        .unwrap()
        .call()
        .unwrap();
    assert_eq!(input.as_str(), "Hello");
}

#[test]
fn replicas_have_one_number_each() {
    let mut set = ReplicaSet::new();
    let replica = set.create(ReplicaId::new(4)).unwrap();
    assert_eq!(replica.id(), ReplicaId::new(4));
    assert_eq!(replica.id().to_text(), "#replica:4");
    assert_eq!(
        set.create(ReplicaId::new(4)).err(),
        Some(Error::ReplicaExists(4))
    );
    let second = set.create(ReplicaId::new(2)).unwrap();
    assert_eq!(set.iter(), vec![ReplicaId::new(2), ReplicaId::new(4)]);
    assert!(set.has(&ReplicaId::new(4)));
    assert!(set.destroy(&ReplicaId::new(4)));
    assert!(!set.destroy(&ReplicaId::new(4)));
    set.kill(second);
    assert!(set.has(&ReplicaId::new(2)));
    set.maintain();
    assert!(!set.has(&ReplicaId::new(2)));
}

#[test]
fn changes_reach_the_replica_that_they_are_for() {
    let mut there = ReplicaSet::new();
    there.bind_change();
    let first = there.create(ReplicaId::new(1)).unwrap();
    let second = there.create(ReplicaId::new(2)).unwrap();
    let mut changes = second.collect_changes().recepient(EngineId::new(5));
    changes.scope().collect_replicable(&300u16).unwrap();
    assert_eq!(changes.size(), 2);
    assert!(sends(&mut there, &second, changes));
    let change = there.take_change().unwrap();
    assert_eq!(change.recepients, vec![EngineId::new(5)]);
    assert_eq!(change.message.replica_id(), ReplicaId::new(2));
    assert_eq!(change.message.buffer, vec![0xAC, 0x02]);

    assert!(there.push_change(change));
    there.maintain();
    assert!(first.apply_changes(&mut there).is_none());
    let mut value = 0u16;
    let mut changes = second.apply_changes(&mut there).unwrap();
    changes.scope().apply_replicable(&mut value).unwrap();
    assert_eq!(value, 300);
    assert!(second.apply_changes(&mut there).is_none());
    assert!(!second.send_changes(&mut there, second.collect_changes()));
}

fn sends(set: &mut ReplicaSet, replica: &Replica, changes: ReplicaCollectChanges) -> bool {
    let sent = replica.send_changes(set, changes);
    set.maintain();
    sent
}

#[test]
fn who_holds_a_replica_gets_what_waits_for_it() {
    let mut set = ReplicaSet::new();
    set.bind_change();
    let first = set.create(ReplicaId::new(1)).unwrap();
    for value in [10u8, 11] {
        let mut changes = first.collect_changes();
        changes.scope().collect_replicable(&value).unwrap();
        assert!(sends(&mut set, &first, changes));
        let change = set.take_change().unwrap();
        assert!(set.push_change(change));
        set.maintain();
    }
    assert!(set.destroy(&ReplicaId::new(1)));
    let mut value = 0u8;
    let mut changes = first.apply_changes(&mut set).unwrap();
    changes.scope().apply_replicable(&mut value).unwrap();
    assert_eq!(value, 10);

    // Another replica with that number has ways of its own.
    let second = set.create(ReplicaId::new(1)).unwrap();
    assert!(second.apply_changes(&mut set).is_none());
    let mut changes = first.collect_changes();
    changes.scope().collect_replicable(&12u8).unwrap();
    assert!(!sends(&mut set, &first, changes));
    assert!(set.take_change().is_none());
    let mut changes = first.apply_changes(&mut set).unwrap();
    changes.scope().apply_replicable(&mut value).unwrap();
    assert_eq!(value, 11);
    assert!(first.apply_changes(&mut set).is_none());

    // Letting go of a replica takes out the one that has its number.
    set.kill(first);
    set.maintain();
    assert!(!set.has(&ReplicaId::new(1)));
    assert!(second.apply_changes(&mut set).is_none());
}

#[test]
fn what_was_on_its_way_is_given_back() {
    let mut set = ReplicaSet::new();
    set.bind_change();
    let replica = set.create(ReplicaId::new(1)).unwrap();
    let mut changes = replica.collect_changes();
    changes.scope().collect_replicable(&5u8).unwrap();
    assert!(sends(&mut set, &replica, changes));
    let left = set.bind_change_sender();
    assert_eq!(left.len(), 1);
    assert_eq!(left[0].message.buffer, vec![5]);
    assert!(set.take_change().is_none());
    for change in left {
        assert!(set.push_change(change));
    }
    let (change, rpc) = set.unbind();
    assert!(change.outbox.is_empty());
    assert_eq!(change.inbox.len(), 1);
    assert!(rpc.outbox.is_empty());
    assert!(rpc.inbox.is_empty());
    assert!(!set.push_change(change.inbox.into_iter().next().unwrap()));
}

#[test]
fn calls_need_a_replica() {
    let mut set = ReplicaSet::new();
    set.bind_rpc();
    let gone = set.create(ReplicaId::new(3)).unwrap();
    set.destroy(&ReplicaId::new(3));
    let rpc = Rpc::<(), RepCodec<u8>, GREET>::new("nothing".to_owned(), 1);
    assert_eq!(
        gone.rpc_sender().send(&mut set, rpc),
        Err(Error::NoReplica(3))
    );
    assert!(gone.rpc_receive(&mut set).is_none());
}

#[test]
fn given_up_changes_are_written_over() {
    let mut buffer = RawReplicationBuffer::default();
    let mut scope = buffer.collect_changes_scope();
    scope.collect_replicable(&true).unwrap();
    let mut inner = scope.scope();
    inner.collect_replicable(&7u8).unwrap();
    inner.abort();
    inner.collect_replicable(&8u8).unwrap();
    assert_eq!(buffer.into_inner(), vec![1, 8]);
}

#[test]
fn marked_changes_come_with_a_tag() {
    let mut mine = ManReplicated::new(9u8);
    let mut buffer = RawReplicationBuffer::default();
    buffer
        .collect_changes_scope()
        .maybe_collect_replicated::<5, _, _>(&mut mine)
        .unwrap();
    assert_eq!(buffer.size(), 3);
    buffer
        .collect_changes_scope()
        .maybe_collect_replicated::<5, _, _>(&mut mine)
        .unwrap();
    assert_eq!(buffer.size(), 3);
    mine.mark_changed();
    buffer
        .collect_changes_scope()
        .maybe_collect_replicated::<5, _, _>(&mut mine)
        .unwrap();
    assert_eq!(buffer.size(), 6);
    let mut theirs = ManReplicated::new(0u8);
    let mut buffer = RawReplicationBuffer::new(buffer.into_inner());
    buffer
        .apply_changes_scope()
        .maybe_apply_replicated::<6, _, _>(&mut theirs)
        .unwrap();
    assert_eq!(*theirs.deref(), 0);

    // The length counts itself too.
    assert_eq!(
        buffer
            .apply_changes_scope()
            .maybe_apply_replicated::<5, _, _>(&mut theirs),
        Err(Error::LengthMismatch)
    );
    assert_eq!(*theirs.deref(), 9);
    let mut buffer = RawReplicationBuffer::new(vec![5, 2, 4]);
    buffer
        .apply_changes_scope()
        .maybe_apply_replicated::<5, _, _>(&mut theirs)
        .unwrap();
    assert_eq!(*theirs.deref(), 4);
}

#[test]
fn buffers_of_replicas_are_messages() {
    let message = ReplicationBuffer {
        replica_id: ReplicaId::new(3),
        buffer: vec![1, 2],
    };
    let mut bytes = Buffer::new(Vec::new());
    ReplicationBuffer::encode(&message, &mut bytes).unwrap();
    let mut bytes = Buffer::new(bytes.into_inner());
    let read = ReplicationBuffer::decode(&mut bytes).unwrap();
    assert_eq!(read.replica_id, ReplicaId::new(3));
    assert_eq!(read.buffer, vec![1, 2]);
    assert_eq!(bytes.remaining(), 0);
}

#[test]
fn calls_of_other_types_are_refused() {
    let mut buffer = Buffer::new(Vec::new());
    Rpc::<bool, String, 1>::new("greet".to_owned(), "Alice".to_owned())
        .encode(&mut buffer)
        .unwrap();
    let bytes = buffer.into_inner();
    let decoder = RpcPartialDecoder::new(bytes.clone()).unwrap();
    assert!(decoder.is_request());
    assert_eq!(decoder.type_hash(), 1);
    assert_eq!(
        decoder.complete::<bool, String, 2>().err(),
        Some(Error::RpcTypeMismatch)
    );
    let mut odd = bytes.clone();
    odd[0] = 9;
    assert_eq!(
        RpcPartialDecoder::new(odd).err(),
        Some(Error::UnknownRpcKind)
    );
    let decoder = RpcPartialDecoder::new(bytes).unwrap();
    let request = decoder.complete::<bool, String, 1>().unwrap();
    assert_eq!(request.result().err(), Some(Error::NotAResponse));
}

#[test]
fn rpc_test_rpc() {
    type RpcGreet = Rpc<bool, String, GREET>;

    fn greet(name: &str) -> bool {
        name == "Alice"
    }

    ///// Machine A create and send RPC.
    let rpc = RpcGreet::new("greet".to_owned(), "Alice".to_string());
    let guid = rpc.guid();
    assert!(rpc.is_request());

    let mut buffer = Buffer::new(Vec::new());
    rpc.encode(&mut buffer).unwrap();
    let buffer = buffer.into_inner();

    ///// Machine B receive RPC, execute it and send response.
    let mut buffer = Buffer::new(buffer);
    let rpc = RpcGreet::decode(&mut buffer).unwrap();
    assert_eq!(rpc.guid(), guid);
    assert!(rpc.is_request());

    let (call, input) = rpc.call().unwrap();
    assert_eq!(call.guid(), guid);
    assert_eq!(call.procedure(), "greet");
    assert_eq!(input.as_str(), "Alice");

    let rpc = call.respond(greet(&input));
    assert_eq!(rpc.guid(), guid);
    assert!(rpc.is_response());

    let mut buffer = Buffer::new(Vec::new());
    rpc.encode(&mut buffer).unwrap();
    let buffer = buffer.into_inner();

    ///// Machine A receive RPC response.
    let mut buffer = Buffer::new(buffer);
    let rpc = RpcGreet::decode(&mut buffer).unwrap();
    assert_eq!(rpc.guid(), guid);
    assert_eq!(rpc.procedure(), "greet");
    assert!(rpc.is_response());
    let output = rpc.result().unwrap();
    assert!(output);
}
