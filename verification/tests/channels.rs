use tehuti::buffer::Buffer;
use tehuti::channel::{
    decode_packet, encode_packet, Channel, ChannelId, ChannelKind, ChannelMode, Dispatch,
};
use tehuti::codec::block::BlockCodec;
use tehuti::codec::replicable::RepCodec;
use tehuti::codec::Codec;
use tehuti::engine::{
    EngineId, EngineMeeting, EngineMeetingConfig, EngineMeetingEvent, EnginePacketReceiver,
    EnginePacketSender, EnginePeerDescriptor, EngineSession, EngineWarning,
};
use tehuti::error::Error;
use tehuti::event::{answer, outcome, unbounded, Duplex, Received};
use tehuti::meeting::{Meeting, MeetingEngineEvent, MeetingUserEvent};
use tehuti::mock::{
    draw_fates, MockMachine, MockNetwork, MockNetworkPort, MockNetworkPortConfig,
};
use tehuti::packet::{PacketSerializer, RawBytesPacketSerializer};
use tehuti::peer::{
    Peer, PeerBuildResult, PeerBuilder, PeerFactory, PeerId, PeerInfo, PeerRoleId,
};
use tehuti::protocol::{ProtocolControlFrame, ProtocolPacketData, RoutedFrame};
use tehuti::session::Session;
use tehuti::user_data::PeerUserData;
use tehuti::wire::{Bytes, Emitted, Parsed};
use tehuti::wiring::carry_packets;

#[derive(Debug, PartialEq)]
struct TestMessage {
    id: u32,
}

/// Postcard behind its length.
struct PostcardMessage;

impl Codec for PostcardMessage {
    type Value = TestMessage;

    type Model = ();

    fn model(_: TestMessage) {}

    fn emit(_: TestMessage) -> Emitted {
        unreachable!()
    }

    fn parse(_: Bytes) -> Parsed<()> {
        unreachable!()
    }

    fn parse_is_within(_: Bytes) {}

    fn encode(message: &TestMessage, buffer: &mut Buffer) -> Result<(), Error> {
        BlockCodec::encode(&postcard::to_allocvec(&message.id).unwrap(), buffer)
    }

    fn decode(buffer: &mut Buffer) -> Result<TestMessage, Error> {
        let data = BlockCodec::decode(buffer)?;
        Ok(TestMessage {
            id: postcard::from_bytes(&data).unwrap(),
        })
    }
}

/// Text as it is.
struct TextBytes;

impl Codec for TextBytes {
    type Value = String;

    type Model = ();

    fn model(_: String) {}

    fn emit(_: String) -> Emitted {
        unreachable!()
    }

    fn parse(_: Bytes) -> Parsed<()> {
        unreachable!()
    }

    fn parse_is_within(_: Bytes) {}

    fn encode(message: &String, buffer: &mut Buffer) -> Result<(), Error> {
        buffer.write_all(message.as_bytes());
        Ok(())
    }

    fn decode(buffer: &mut Buffer) -> Result<String, Error> {
        let rest = buffer.remaining() as u64;
        String::from_utf8(buffer.read_exact(rest)?).map_err(|_| Error::InvalidUtf8)
    }
}

type Bytewise = Channel<RepCodec<u8>>;
type Outfit<Ch> = fn(PeerBuilder<Ch, (), (), u8>) -> Result<PeerBuilder<Ch, (), (), u8>, Error>;

const MESSAGE: u64 = 1;

fn both_ways(
    builder: PeerBuilder<Bytewise, (), (), u8>,
) -> Result<PeerBuilder<Bytewise, (), (), u8>, Error> {
    Ok(builder.bind_read_write(
        ChannelId::new(0),
        ChannelMode::ReliableOrdered,
        None,
        Channel::read(),
        Channel::write(),
        MESSAGE,
        (),
        (),
    ))
}

fn factory() -> PeerFactory<Outfit<Bytewise>, u8> {
    PeerFactory::default().with(PeerRoleId::new(0), both_ways as Outfit<Bytewise>)
}

fn info(peer_id: u64, role_id: u64, remote: bool) -> PeerInfo {
    PeerInfo {
        peer_id: PeerId::new(peer_id),
        role_id: PeerRoleId::new(role_id),
        remote,
    }
}

fn is_send<T: Send>() {}

#[test]
fn channel_test_async() {
    is_send::<Bytewise>();
}

#[test]
fn engine_test_async() {
    is_send::<EnginePacketSender>();
    is_send::<EnginePacketReceiver>();
    is_send::<EnginePeerDescriptor>();
}

#[test]
fn meeting_test_async() {
    is_send::<MeetingEngineEvent>();
    is_send::<MeetingUserEvent<(), (), u8>>();
    is_send::<Meeting<Bytewise, (), (), u8, Outfit<Bytewise>>>();
}

#[test]
fn peer_test_async() {
    is_send::<Peer<(), (), u8>>();
    is_send::<PeerBuildResult<Bytewise, (), (), u8>>();
    is_send::<PeerBuilder<Bytewise, (), (), u8>>();
    is_send::<PeerFactory<Outfit<Bytewise>, u8>>();
}

#[test]
fn test_channel_write() {
    let mut channel = Channel::<PostcardMessage>::write();

    let message = TestMessage { id: 42 };
    channel.push_message(Dispatch::new(message));

    channel.pump().unwrap();

    let packet = channel.take_packet().unwrap();
    let message = PostcardMessage::decode(&mut Buffer::new(packet.data)).unwrap();
    assert_eq!(message.id, 42);
}

#[test]
fn test_channel_read() {
    let mut channel = Channel::<PostcardMessage>::read();

    let message = TestMessage { id: 42 };
    let mut packet = Buffer::new(Vec::new());
    PostcardMessage::encode(&message, &mut packet).unwrap();
    channel.push_packet(ProtocolPacketData::new(packet.into_inner()));

    channel.pump().unwrap();

    let message = channel.take_message().unwrap().message;
    assert_eq!(message.id, 42);
}

#[test]
fn test_channel_pipe() {
    let mut channel = Channel::<PostcardMessage>::pipe();

    let message = TestMessage { id: 42 };
    channel.push_message(Dispatch::new(message));

    channel.pump().unwrap();

    let message = channel.take_passed().unwrap().message;
    assert_eq!(message.id, 42);
}

#[test]
fn test_postcard_codec() {
    let message = TestMessage { id: 42 };
    let mut buffer = Buffer::new(Vec::new());
    PostcardMessage::encode(&message, &mut buffer).unwrap();

    let mut buffer = Buffer::new(buffer.into_inner());
    let decoded_message = PostcardMessage::decode(&mut buffer).unwrap();

    assert_eq!(message, decoded_message);
}

#[test]
fn blocks_stand_behind_their_length() {
    let mut buffer = Buffer::new(Vec::new());
    BlockCodec::encode(&vec![7, 8, 9], &mut buffer).unwrap();
    let bytes = buffer.into_inner();
    assert_eq!(bytes, vec![3, 0, 0, 0, 0, 0, 0, 0, 7, 8, 9]);
    let mut cut = Buffer::new(bytes[..10].to_vec());
    assert_eq!(BlockCodec::decode(&mut cut), Err(Error::UnexpectedEof));
    let mut whole = Buffer::new(bytes);
    assert_eq!(BlockCodec::decode(&mut whole), Ok(vec![7, 8, 9]));
    assert_eq!(whole.remaining(), 0);
}

#[test]
fn channels_move_everything_in_order() {
    let mut writer = Bytewise::write();
    for byte in [3, 1, 2] {
        writer.push_message(Dispatch::new(byte));
    }
    assert_eq!(writer.kind(), ChannelKind::Write);
    assert_eq!(writer.pump_all(), Ok(3));
    assert_eq!(writer.pump(), Ok(false));
    let mut reader = Bytewise::read();
    while let Some(packet) = writer.take_packet() {
        reader.push_packet(packet);
    }
    assert_eq!(reader.pump_all(), Ok(3));
    assert_eq!(reader.take_message().unwrap().message, 3);
    assert_eq!(reader.take_message().unwrap().message, 1);
    assert_eq!(reader.take_message().unwrap().message, 2);
    assert!(reader.take_message().is_none());
}

#[test]
fn messages_keep_who_they_are_from_and_for() {
    let mut writer = Bytewise::write();
    writer.push_message(
        Dispatch::new(5)
            .recepient(EngineId::new(1))
            .maybe_recepient(Some(EngineId::new(2)))
            .maybe_recepient(None),
    );
    assert_eq!(writer.pump_all(), Ok(1));
    let mut sent = writer.drain();
    assert_eq!(sent.len(), 1);
    assert_eq!(sent[0].data, vec![5]);
    assert_eq!(sent[0].recepients, vec![EngineId::new(1), EngineId::new(2)]);
    assert!(writer.take_packet().is_none());
    sent[0].sender = Some(EngineId::new(9));
    let mut reader = Bytewise::read();
    reader.fill(sent);
    assert_eq!(reader.pump_all(), Ok(1));
    let received = reader.take_message().unwrap();
    assert_eq!(received.message, 5);
    assert_eq!(received.recepients, vec![EngineId::new(1), EngineId::new(2)]);
    assert_eq!(received.sender, Some(EngineId::new(9)));
}

#[test]
fn packets_that_are_no_messages_are_gone() {
    let mut reader = Bytewise::read();
    reader.push_packet(ProtocolPacketData::new(vec![]));
    reader.push_packet(ProtocolPacketData::new(vec![7]));
    assert_eq!(reader.pump(), Err(Error::UnexpectedEof));
    assert_eq!(reader.pump(), Ok(true));
    assert_eq!(reader.take_message().unwrap().message, 7);
    let packet = encode_packet::<RepCodec<u8>>(&9).unwrap();
    assert_eq!(packet, vec![9]);
    assert_eq!(decode_packet::<RepCodec<u8>>(packet), Ok(9));
}

#[test]
fn raw_packets_are_bytes() {
    let mut serializer = RawBytesPacketSerializer;
    let mut packet = vec![];
    serializer.encode(&vec![1, 2, 3], &mut packet).unwrap();
    assert_eq!(packet, vec![1, 2, 3]);
    assert_eq!(serializer.decode(&packet), Ok(vec![1, 2, 3]));
}

#[test]
fn test_channels() {
    let (sender, receiver) = unbounded::<u8>();

    assert_eq!(receiver.try_recv(), None);
    sender.send(1).unwrap();
    sender.send(2).unwrap();
    assert_eq!(receiver.try_recv(), Some(1));
    sender.send(3).unwrap();
    assert_eq!(receiver.try_recv(), Some(2));
    assert_eq!(receiver.try_recv(), Some(3));
    assert_eq!(receiver.try_recv(), None);
}

#[test]
fn channels_end_with_their_ends() {
    let (sender, receiver) = unbounded::<u8>();
    sender.send(5).unwrap();
    assert_eq!(receiver.len(), 1);
    assert!(!receiver.is_empty());
    let other = sender.clone();
    drop(sender);
    assert_eq!(receiver.recv(), Ok(Some(5)));
    assert_eq!(receiver.recv(), Ok(None));
    drop(other);
    assert_eq!(receiver.recv(), Err(Error::ChannelClosed));
    assert_eq!(receiver.try_recv(), None);

    let (sender, receiver) = unbounded::<u8>();
    drop(receiver.clone());
    assert_eq!(sender.send(1), Ok(()));
    drop(receiver);
    assert_eq!(sender.send(1), Err(Error::ChannelClosed));

    let (here, there) = Duplex::crossing_unbounded();
    here.sender.send(1).unwrap();
    there.sender.send(2).unwrap();
    assert_eq!(here.receiver.try_recv(), Some(2));
    assert_eq!(there.receiver.try_recv(), Some(1));
    let own = Duplex::unbounded();
    own.sender.send(3).unwrap();
    assert_eq!(own.receiver.try_recv(), Some(3));

    assert_eq!(outcome(Received::Value(1)), Ok(Some(1)));
    assert_eq!(outcome(Received::<u8>::Nothing), Ok(None));
    assert_eq!(outcome(Received::<u8>::Over), Err(Error::ChannelClosed));
}

#[test]
fn test_peer() {
    let factory = factory();

    let peer_id = PeerId::new(0);
    let role_id = PeerRoleId::new(0);
    let PeerBuildResult {
        peer,
        mut channels,
        mut descriptor,
    } = factory
        .create(Peer::new(PeerInfo {
            peer_id,
            role_id,
            remote: false,
        }))
        .unwrap();

    assert_eq!(peer.info().peer_id, peer_id);
    assert_eq!(peer.info().role_id, role_id);
    assert_eq!(channels.len(), 2);

    peer.destructure()
        .read_write(ChannelId::new(0), MESSAGE)
        .unwrap();

    channels[1].push_message(Dispatch::new(42u8));

    for channel in &mut channels {
        channel.pump_all().unwrap();
    }
    carry_packets(&mut descriptor, &mut channels);

    let packet = descriptor
        .packet_receivers
        .value_mut(0)
        .receiver
        .pop_front()
        .unwrap();
    let mut buffer = Buffer::new(packet.data);
    let message = RepCodec::<u8>::decode(&mut buffer).unwrap();
    assert_eq!(message, 42u8);

    let mut buffer = Buffer::new(Vec::new());
    RepCodec::<u8>::encode(&100, &mut buffer).unwrap();
    descriptor
        .packet_senders
        .value_mut(0)
        .sender
        .push_back(ProtocolPacketData {
            data: buffer.into_inner(),
            recepients: Default::default(),
            sender: None,
        });

    carry_packets(&mut descriptor, &mut channels);
    for channel in &mut channels {
        channel.pump_all().unwrap();
    }

    let received_message = channels[0].take_message().unwrap().message;
    assert_eq!(received_message, 100u8);
}

#[test]
fn peers_have_the_ends_that_they_were_given() {
    let factory = factory();
    let unknown = factory.create(Peer::<(), (), u8>::new(info(0, 3, false)));
    assert_eq!(unknown.err(), Some(Error::UnknownRole(3)));

    let peer = factory.create(Peer::new(info(4, 0, true))).unwrap().peer;
    assert_eq!(peer.sender(ChannelId::new(0), MESSAGE), Ok(&()));
    assert_eq!(
        peer.sender(ChannelId::new(1), MESSAGE),
        Err(Error::NoSender(1))
    );
    assert_eq!(
        peer.receiver(ChannelId::new(1), MESSAGE),
        Err(Error::NoReceiver(1))
    );
    assert_eq!(
        peer.receiver(ChannelId::new(0), 9),
        Err(Error::MessageTypeDiffers(0))
    );
    assert_eq!(peer.killer().victim(), Some(PeerId::new(4)));

    let mut parts = peer.destructure();
    assert_eq!(parts.killer().victim(), Some(PeerId::new(4)));
    assert_eq!(parts.read(ChannelId::new(0), MESSAGE), Ok(()));
    assert_eq!(
        parts.read(ChannelId::new(0), MESSAGE),
        Err(Error::NoReceiver(0))
    );
    assert_eq!(parts.write(ChannelId::new(0), MESSAGE), Ok(()));
    assert_eq!(parts.into_peer().killer().victim(), None);
}

#[test]
fn test_meeting() {
    let mut meeting =
        Meeting::<Bytewise, (), (), u8, Outfit<Bytewise>>::new(factory(), "meeting".to_owned());

    assert!(meeting.pump_all().is_ok());
}

#[test]
fn meetings_add_and_remove_peers() {
    let mut meeting =
        Meeting::<Bytewise, (), (), u8, Outfit<Bytewise>>::new(factory(), "meeting".to_owned());
    assert_eq!(meeting.name(), "meeting");
    meeting.push_user_event(MeetingUserEvent::PeerCreate(
        PeerId::new(5),
        PeerRoleId::new(0),
    ));
    assert_eq!(meeting.pump_all(), Ok(true));
    match meeting.take_user_event() {
        Some(MeetingUserEvent::PeerAdded(peer)) => assert_eq!(*peer.info(), info(5, 0, false)),
        _ => panic!(),
    }
    match meeting.take_engine_event() {
        Some(MeetingEngineEvent::PeerCreated(descriptor)) => {
            assert_eq!(descriptor.info, info(5, 0, false));
            assert_eq!(descriptor.packet_senders.len(), 1);
            assert_eq!(descriptor.packet_receivers.len(), 1);
        }
        _ => panic!(),
    }
    assert_eq!(meeting.channels(PeerId::new(5)).unwrap().len(), 2);

    meeting.push_engine_event(MeetingEngineEvent::PeerJoined(
        PeerId::new(5),
        PeerRoleId::new(0),
    ));
    assert_eq!(meeting.pump_all(), Err(Error::PeerExists(5)));

    meeting.push_engine_event(MeetingEngineEvent::PeerLeft(PeerId::new(5)));
    assert_eq!(meeting.pump_all(), Ok(true));
    assert!(meeting.channels(PeerId::new(5)).is_none());
    assert!(matches!(
        meeting.take_user_event(),
        Some(MeetingUserEvent::PeerRemoved(id)) if id == PeerId::new(5)
    ));
}

fn engine(config: EngineMeetingConfig) -> EngineMeeting<Bytewise, (), (), u8, Outfit<Bytewise>> {
    EngineMeeting::make("engine".to_owned(), config, factory())
}

#[test]
fn machines_learn_of_peers_and_get_their_packets() {
    let mut here = engine(EngineMeetingConfig::default());
    here.push_event(EngineMeetingEvent::RegisterEngine {
        key: 1,
        session: EngineSession::new(EngineId::new(11)),
    });
    here.push_user_event(MeetingUserEvent::PeerCreate(
        PeerId::new(0),
        PeerRoleId::new(0),
    ));
    here.maintain().unwrap();
    assert!(here.knows_peer(PeerId::new(0)));
    let created = here.take_frame(1).unwrap();
    assert!(matches!(
        created,
        RoutedFrame::Control(ProtocolControlFrame::CreatePeer(peer, role))
            if peer == PeerId::new(0) && role == PeerRoleId::new(0)
    ));

    let mut there = engine(EngineMeetingConfig::default());
    there.push_event(EngineMeetingEvent::RegisterEngine {
        key: 2,
        session: EngineSession::new(EngineId::new(22)),
    });
    there.maintain().unwrap();
    assert!(there.push_frame(2, created));
    assert!(!there.push_frame(3, RoutedFrame::Control(ProtocolControlFrame::DestroyPeer(PeerId::new(0)))));
    there.maintain().unwrap();
    assert!(there.knows_peer(PeerId::new(0)));
    assert!(there.take_frame(2).is_none());

    here.channels_mut(PeerId::new(0)).unwrap()[1]
        .push_message(Dispatch::new(42).recepient(EngineId::new(11)));
    here.maintain().unwrap();
    here.maintain().unwrap();
    let packet = here.take_frame(1).unwrap();
    assert!(there.push_frame(2, packet));
    // What machines sent is in the channels when the meeting runs.
    there.maintain().unwrap();
    let received = there.channels_mut(PeerId::new(0)).unwrap()[0]
        .take_message()
        .unwrap();
    assert_eq!(received.message, 42);
    assert_eq!(received.recepients, vec![EngineId::new(11)]);
    assert_eq!(received.sender, None);

    // A message for another machine stays here.
    here.channels_mut(PeerId::new(0)).unwrap()[1]
        .push_message(Dispatch::new(43).recepient(EngineId::new(12)));
    here.maintain().unwrap();
    here.maintain().unwrap();
    assert!(here.take_frame(1).is_none());

    here.push_event(EngineMeetingEvent::UnregisterEngine { key: 1 });
    here.maintain().unwrap();
    assert!(here.take_frame(1).is_none());
}

fn registered(key: u64, gone: bool) -> EngineMeetingEvent {
    let mut session = EngineSession::new(EngineId::new(10 * key as u128));
    session.gone = gone;
    EngineMeetingEvent::RegisterEngine { key, session }
}

fn create(peer: u64) -> MeetingUserEvent<(), (), u8> {
    MeetingUserEvent::PeerCreate(PeerId::new(peer), PeerRoleId::new(0))
}

#[test]
fn machines_that_are_gone_end_a_round() {
    // Nobody has to be introduced, so who is gone does not matter yet.
    let mut here = engine(EngineMeetingConfig::default());
    here.push_event(registered(1, true));
    here.maintain().unwrap();
    here.push_event(EngineMeetingEvent::UnregisterEngine { key: 1 });
    here.push_user_event(create(0));
    here.maintain().unwrap();
    // A machine that cannot be introduced to a peer is not let in, and those behind it wait.
    here.push_event(registered(2, false));
    here.push_event(registered(3, true));
    here.push_event(registered(4, false));
    assert_eq!(here.maintain(), Err(Error::ChannelClosed));
    assert!(here.take_frame(2).is_some());
    assert!(!here.lose_machine(3));
    assert!(!here.lose_machine(4));
    here.maintain().unwrap();
    assert!(here.take_frame(4).is_some());

    // A frame gets no further than the first machine that does not take it.
    here.push_event(registered(6, false));
    here.maintain().unwrap();
    assert!(here.take_frame(6).is_some());
    assert!(here.lose_machine(4));
    let packet = |byte| {
        RoutedFrame::Packet(
            PeerId::new(0),
            ChannelId::new(0),
            ProtocolPacketData::new(vec![byte]),
        )
    };
    here.push_frame(6, packet(7));
    here.push_frame(6, packet(8));
    assert_eq!(here.maintain(), Err(Error::ChannelClosed));
    assert!(matches!(here.take_frame(2), Some(RoutedFrame::Packet(_, _, data)) if data.data == vec![7]));
    assert!(here.take_frame(2).is_none());
    assert!(here.take_packet(PeerId::new(0), ChannelId::new(0)).is_none());
    here.push_event(EngineMeetingEvent::UnregisterEngine { key: 4 });
    here.maintain().unwrap();
    assert!(matches!(here.take_frame(2), Some(RoutedFrame::Packet(_, _, data)) if data.data == vec![8]));
    let received = here.channels_mut(PeerId::new(0)).unwrap()[0].take_message();
    assert_eq!(received.unwrap().message, 8);

    // What a peer wrote gets no further either, and the rest waits.
    for byte in [1, 2] {
        here.channels_mut(PeerId::new(0)).unwrap()[1].push_message(Dispatch::new(byte));
    }
    here.maintain().unwrap();
    assert!(here.lose_machine(6));
    assert_eq!(here.maintain(), Err(Error::ChannelClosed));
    assert!(matches!(here.take_frame(2), Some(RoutedFrame::Packet(_, _, data)) if data.data == vec![1]));
    assert!(here.take_frame(2).is_none());
    assert!(here.take_frame(6).is_none());
    here.push_event(EngineMeetingEvent::UnregisterEngine { key: 6 });
    here.maintain().unwrap();
    assert!(matches!(here.take_frame(2), Some(RoutedFrame::Packet(_, _, data)) if data.data == vec![2]));

    // A peer of which not all machines can be told is not taken note of.
    here.push_event(registered(6, false));
    here.maintain().unwrap();
    assert!(here.lose_machine(6));
    here.push_user_event(create(9));
    assert_eq!(here.maintain(), Err(Error::ChannelClosed));
    assert!(here.take_frame(2).is_some());
    assert!(!here.knows_peer(PeerId::new(9)));
}

#[test]
fn messages_reach_the_same_peer_through_sessions() {
    let mut here = engine(EngineMeetingConfig::default());
    let mut there = engine(EngineMeetingConfig::default());
    here.push_event(registered(2, false));
    there.push_event(registered(1, false));
    there.maintain().unwrap();
    here.push_user_event(create(5));
    let ids = (EngineId::new(10), EngineId::new(20));
    let mut from = Session::new(ids.0, ids.1);
    let mut to = Session::new(ids.1, ids.0);
    for round in 0..4 {
        if round == 2 {
            for byte in [4, 2] {
                here.channels_mut(PeerId::new(5)).unwrap()[1].push_message(Dispatch::new(byte));
            }
        }
        here.maintain().unwrap();
        while let Some(frame) = here.take_frame(2) {
            from.send_frame(frame).unwrap();
        }
        to.feed(from.outgoing());
        from.sent(from.outgoing().len());
        for frame in to.receive_frames().unwrap() {
            assert!(there.push_frame(1, frame));
        }
        there.maintain().unwrap();
    }
    let channel = &mut there.channels_mut(PeerId::new(5)).unwrap()[0];
    for byte in [4, 2] {
        let received = channel.take_message().unwrap();
        assert_eq!(received.message, byte);
        assert_eq!(received.sender, Some(ids.0));
        assert!(received.recepients.is_empty());
    }
    assert!(channel.take_message().is_none());
}

#[test]
fn newcomers_are_introduced() {
    let mut here = engine(EngineMeetingConfig::default());
    for id in [3, 1] {
        here.push_user_event(MeetingUserEvent::PeerCreate(
            PeerId::new(id),
            PeerRoleId::new(0),
        ));
    }
    here.maintain().unwrap();
    here.push_event(EngineMeetingEvent::RegisterEngine {
        key: 0,
        session: EngineSession::new(EngineId::new(9)),
    });
    here.maintain().unwrap();
    for id in [1, 3] {
        assert!(matches!(
            here.take_frame(0),
            Some(RoutedFrame::Control(ProtocolControlFrame::CreatePeer(peer, _)))
                if peer == PeerId::new(id)
        ));
    }
    assert!(here.take_frame(0).is_none());
}

#[test]
fn packets_go_to_their_recepients_only() {
    let mut hub = engine(EngineMeetingConfig::default());
    for key in [1, 2, 3] {
        hub.push_event(EngineMeetingEvent::RegisterEngine {
            key,
            session: EngineSession::new(EngineId::new(key as u128 * 10)),
        });
    }
    hub.maintain().unwrap();
    hub.push_frame(
        1,
        RoutedFrame::Packet(
            PeerId::new(0),
            ChannelId::new(0),
            ProtocolPacketData {
                data: vec![5],
                recepients: vec![EngineId::new(30)],
                sender: None,
            },
        ),
    );
    hub.maintain().unwrap();
    assert!(hub.take_frame(1).is_none());
    assert!(hub.take_frame(2).is_none());
    assert!(matches!(
        hub.take_frame(3),
        Some(RoutedFrame::Packet(_, _, packet)) if packet.data == vec![5]
    ));
}

#[test]
fn odd_things_are_worth_a_warning() {
    let mut hub = engine(EngineMeetingConfig::default().enable_all_warnings());
    hub.push_event(EngineMeetingEvent::RegisterEngine {
        key: 1,
        session: EngineSession::new(EngineId::new(10)),
    });
    hub.maintain().unwrap();
    let heartbeat = ProtocolControlFrame::Heartbeat { timestamp: 0 };
    hub.push_frame(1, RoutedFrame::Control(heartbeat));
    hub.push_frame(
        1,
        RoutedFrame::Packet(
            PeerId::new(7),
            ChannelId::new(0),
            ProtocolPacketData::new(vec![]),
        ),
    );
    hub.maintain().unwrap();
    assert_eq!(
        hub.take_warnings(),
        vec![
            EngineWarning::UnhandledControlFrame(1, heartbeat),
            EngineWarning::UnknownPeerPacket(1, PeerId::new(7)),
        ]
    );
    hub.close();
    assert_eq!(hub.maintain(), Err(Error::MeetingDestroyed));
}

fn texts(
    builder: PeerBuilder<Channel<TextBytes>, (), (), u8>,
) -> Result<PeerBuilder<Channel<TextBytes>, (), (), u8>, Error> {
    Ok(builder
        .bind_read(
            ChannelId::new(0),
            ChannelMode::ReliableOrdered,
            None,
            Channel::read(),
            MESSAGE,
            (),
        )
        .bind_write(
            ChannelId::new(0),
            ChannelMode::ReliableOrdered,
            None,
            Channel::write(),
            MESSAGE,
            (),
        ))
}

type TextMachine = MockMachine<Channel<TextBytes>, (), (), u8, Outfit<Channel<TextBytes>>>;

fn text_factory() -> PeerFactory<Outfit<Channel<TextBytes>>, u8> {
    PeerFactory::default().with(PeerRoleId::new(0), texts as Outfit<Channel<TextBytes>>)
}

fn turn(network: &mut MockNetwork, machines: &mut [(u64, u64, TextMachine)], elapsed: u64) {
    for (port, id, machine) in machines {
        let meeting = machine.meeting_mut(*id).unwrap();
        meeting.maintain().unwrap();
        assert!(network.exchange(*port, &mut meeting.port));
    }
    let sent = network.collect();
    let lost = vec![false; sent.len()];
    let fates = draw_fates(&sent, &lost);
    network.distribute(sent, fates, elapsed);
}

#[test]
fn test_mock() {
    // Create network that will transmit messages between machines.
    let mut network = MockNetwork::default();

    // Create two machines connected via the mock network.
    let mut machines = vec![];
    for port in [0, 1] {
        network.open_port(port, Default::default());
        let mut machine = MockMachine::default();
        let meeting = machine.start_meeting(
            "mock".to_owned(),
            text_factory(),
            MockNetworkPort::default(),
        );
        assert_eq!(meeting, 1);
        machines.push((port, meeting, machine));
    }

    // Create peers in connected meeting, replicated on all machines.
    machines[0]
        .2
        .meeting_mut(1)
        .unwrap()
        .meeting
        .push_user_event(MeetingUserEvent::PeerCreate(
            PeerId::new(0),
            PeerRoleId::new(0),
        ));

    // Gather created peers on both machines.
    for _ in 0..4 {
        turn(&mut network, &mut machines, 0);
    }
    for (_, id, machine) in &mut machines {
        let meeting = machine.meeting_mut(*id).unwrap();
        assert!(matches!(
            meeting.meeting.take_user_event(),
            Some(MeetingUserEvent::PeerAdded(peer)) if peer.info().peer_id == PeerId::new(0)
        ));
    }

    // Send message from peer on machine A to peer on machine B.
    machines[0]
        .2
        .meeting_mut(1)
        .unwrap()
        .meeting
        .channels_mut(PeerId::new(0))
        .unwrap()[1]
        .push_message(Dispatch::new("Hello from machine A".to_owned()));

    // Receive message on peer on machine B.
    for _ in 0..8 {
        turn(&mut network, &mut machines, 0);
    }
    let msg = machines[1]
        .2
        .meeting_mut(1)
        .unwrap()
        .meeting
        .channels_mut(PeerId::new(0))
        .unwrap()[0]
        .take_message()
        .unwrap()
        .message;
    assert_eq!(&msg, "Hello from machine A");

    machines[1].2.stop_meeting(1);
    assert!(machines[1].2.meeting_mut(1).is_none());
    assert_eq!(
        machines[1]
            .2
            .start_meeting("mock".to_owned(), text_factory(), MockNetworkPort::new()),
        2
    );
}

fn control(peer: u64) -> RoutedFrame {
    RoutedFrame::Control(ProtocolControlFrame::DestroyPeer(PeerId::new(peer)))
}

#[test]
fn frames_get_lost_and_take_their_time() {
    let mut network = MockNetwork::new();
    let config = MockNetworkPortConfig {
        base_latency: 10,
        latency_start: 0,
        latency_end: 0,
    };
    for port in [1, 2, 3] {
        network.open_port(port, config);
    }
    let mut ports = [
        MockNetworkPort::new(),
        MockNetworkPort::new(),
        MockNetworkPort::new(),
    ];
    ports[0].control_out.push_back(control(7));
    ports[0].control_out.push_back(control(8));
    for (port, id) in ports.iter_mut().zip([1, 2, 3]) {
        assert!(network.exchange(id, port));
    }
    let sent = network.collect();
    assert_eq!(sent.len(), 2);
    let fates = draw_fates(&sent, &vec![true, false]);
    assert_eq!(fates, vec![None, Some(10)]);
    network.distribute(sent, fates, 4);
    for elapsed in [4, 4] {
        for (port, id) in ports.iter_mut().zip([1, 2, 3]) {
            network.exchange(id, port);
            assert_eq!(port.control_in.len(), 0);
        }
        network.distribute(vec![], vec![], elapsed);
    }
    for (port, id) in ports.iter_mut().zip([1, 2, 3]) {
        network.exchange(id, port);
        assert_eq!(port.control_in.len(), if id == 1 { 0 } else { 1 });
    }
    assert!(matches!(
        ports[1].control_in.pop_front(),
        Some(RoutedFrame::Control(ProtocolControlFrame::DestroyPeer(peer)))
            if peer == PeerId::new(8)
    ));

    network.close_port(3);
    assert!(!network.exchange(3, &mut ports[2]));
    network.reconfigure_port(
        1,
        MockNetworkPortConfig {
            base_latency: 5,
            latency_start: 3,
            latency_end: 4,
        },
    );
    ports[0].packet_out.push_back(control(1));
    network.exchange(1, &mut ports[0]);
    let sent = network.collect();
    assert_eq!(draw_fates(&sent, &vec![false]), vec![Some(8)]);
    assert_eq!(sent[0].source, 1);
    assert!(!sent[0].control);
}

#[test]
fn ids_are_told_apart_by_label() {
    assert_eq!(ChannelId::new(3).to_text(), "#channel:3");
    assert_eq!(PeerId::new(10).to_text(), "#peer:10");
    assert_eq!(PeerRoleId::new(0).to_text(), "#role:0");
    assert_eq!(EngineId::new(909).to_text(), "#engine:909");
    assert_ne!(EngineId::uuid(), EngineId::uuid());
    assert_eq!(ChannelId::hashed(&"name"), ChannelId::hashed(&"name"));
    assert_ne!(ChannelId::hashed(&"name"), ChannelId::hashed(&"other"));
    assert_ne!(PeerRoleId::hashed(&1u8), PeerRoleId::hashed(&2u8));
}

#[test]
fn shared_user_data_is_frozen() {
    let data = PeerUserData::new().with(3, "three").unwrap();
    assert!(!data.is_frozen());
    let data = data.with(4, "four").unwrap();
    assert_eq!(data.access(3), Ok(&"three"));
    assert_eq!(data.access(5), Err(Error::NoUserData(5)));
    let shared = data.clone();
    assert!(data.is_frozen());
    assert_eq!(data.with(3, "other").err(), Some(Error::Frozen));
    assert!(!shared.is_frozen());
    assert_eq!(shared.access(4), Ok(&"four"));
}

#[test]
fn messages_go_through_the_ends_of_a_peer() {
    let (there, inbox) = unbounded::<u8>();
    let (outbox, from_there) = unbounded::<u8>();
    let peer = PeerBuilder::<Bytewise, _, _, u8>::new(Peer::new(info(0, 0, false)))
        .bind_read_write(
            ChannelId::new(2),
            ChannelMode::ReliableOrdered,
            None,
            Channel::read(),
            Channel::write(),
            MESSAGE,
            inbox,
            outbox,
        )
        .build()
        .peer;
    let id = ChannelId::new(2);
    assert_eq!(peer.recv(id, MESSAGE), Ok(None));
    there.send(6).unwrap();
    assert_eq!(peer.recv(id, MESSAGE), Ok(Some(6)));
    peer.send(id, MESSAGE, 7).unwrap();
    assert_eq!(from_there.try_recv(), Some(7));
    assert_eq!(peer.send(id, 9, 7), Err(Error::MessageTypeDiffers(2)));
    assert_eq!(
        peer.recv(ChannelId::new(3), MESSAGE),
        Err(Error::NoReceiver(3))
    );
    drop(from_there);
    assert_eq!(peer.send(id, MESSAGE, 8), Err(Error::ChannelClosed));
}

#[test]
fn peers_get_the_data_of_their_factory() {
    let factory = factory().with_user_data(3, 33).unwrap();
    let factory = factory.with_user_data(4, 44).unwrap();
    let built = factory.create(Peer::new(info(0, 0, false))).unwrap();
    assert_eq!(built.peer.user_data().access(3), Ok(&33));
    assert_eq!(built.peer.user_data().access(4), Ok(&44));
    assert_eq!(built.peer.user_data().access(5), Err(Error::NoUserData(5)));
    assert!(built.peer.user_data().is_frozen());
    let parts = built.peer.destructure();
    assert_eq!(parts.user_data().access(4), Ok(&44));
    // A peer that was made shares the data, which is frozen by that.
    assert_eq!(factory.with_user_data(5, 55).err(), Some(Error::Frozen));
    assert!(!parts.user_data().is_frozen());

    let peer = Peer::<(), (), u8>::new(info(0, 0, false))
        .with_user_data(PeerUserData::new().with(1, 11).unwrap());
    let builder = PeerBuilder::<Bytewise, (), (), u8>::new(peer);
    assert_eq!(builder.user_data().access(1), Ok(&11));

    let replaced = self::factory().new(PeerUserData::new().with(6, 66).unwrap());
    let built = replaced.create(Peer::new(info(0, 0, false))).unwrap();
    assert_eq!(built.peer.user_data().access(6), Ok(&66));
}

#[test]
fn ends_tell_how_much_waits() {
    let (sender, receiver) = unbounded::<u8>();
    assert!(sender.is_empty());
    assert!(receiver.is_empty());
    let again = sender.clone();
    again.send(1).unwrap();
    sender.send(2).unwrap();
    assert_eq!(sender.len(), 2);
    assert_eq!(receiver.len(), 2);
    assert!(!sender.is_full());
    assert!(!receiver.is_full());
    assert_eq!(receiver.clone().try_recv(), Some(1));
    assert_eq!(receiver.inner().try_recv(), Ok(2));
    assert_eq!(sender.inner().len(), 0);
    let pair = Duplex::<u8>::unbounded();
    pair.clone().sender.send(3).unwrap();
    assert_eq!(pair.receiver.try_recv(), Some(3));
    assert_eq!(answer(Ok::<(), u8>(())), Ok(()));
    assert_eq!(answer(Err::<(), u8>(3)), Err(Error::ChannelClosed));
}

#[test]
fn nobody_takes_what_goes_nowhere() {
    let mut reader: Channel<TextBytes> = Channel::read();
    reader.push_packet(ProtocolPacketData::new(b"text".to_vec()));
    reader.close();
    assert_eq!(reader.pump(), Err(Error::ChannelClosed));
    assert_eq!(reader.pump(), Ok(false));
    assert!(reader.take_message().is_none());
    let mut writer: Channel<TextBytes> = Channel::write();
    writer.push_message(Dispatch::new("text".to_owned()));
    writer.close();
    assert_eq!(writer.pump_all(), Err(Error::ChannelClosed));
    assert!(writer.take_packet().is_none());

    let mut meeting =
        Meeting::<Bytewise, (), (), u8, Outfit<Bytewise>>::new(factory(), "meeting".to_owned());
    meeting.lose_user();
    meeting.push_user_event(MeetingUserEvent::PeerCreate(
        PeerId::new(3),
        PeerRoleId::new(0),
    ));
    assert_eq!(meeting.pump_all(), Err(Error::ChannelClosed));
    // The machine was told before the user could not be.
    assert!(matches!(
        meeting.take_engine_event(),
        Some(MeetingEngineEvent::PeerCreated(_))
    ));
    assert!(meeting.take_user_event().is_none());
    meeting.lose_engine();
    meeting.push_user_event(MeetingUserEvent::PeerDestroy(PeerId::new(3)));
    assert_eq!(meeting.pump_all(), Err(Error::ChannelClosed));
    assert!(meeting.channels(PeerId::new(3)).is_none());
    meeting.close();
    assert!(meeting.take_engine_event().is_none());
}
