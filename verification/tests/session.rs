use tehuti::channel::ChannelId;
use tehuti::engine::EngineId;
use tehuti::error::Error;
use tehuti::peer::{PeerId, PeerRoleId};
use tehuti::protocol::{ProtocolControlFrame, ProtocolFrame, ProtocolPacketData, RoutedFrame};
use tehuti::session::{greeting, read_frames, read_greeting, Session};

#[test]
fn machines_greet_each_other() {
    let bytes = greeting(EngineId::new(0x0102));
    assert_eq!(bytes[..3], [2, 1, 0]);
    assert_eq!(bytes.len(), 16);
    assert_eq!(read_greeting(&bytes), Some(EngineId::new(0x0102)));
    assert_eq!(read_greeting(&bytes[..15]), None);
    let largest = EngineId::new(u128::MAX);
    assert_eq!(read_greeting(&greeting(largest)), Some(largest));
}

fn packet(data: Vec<u8>) -> RoutedFrame {
    RoutedFrame::Packet(
        PeerId::new(1),
        ChannelId::new(2),
        ProtocolPacketData::new(data),
    )
}

#[test]
fn frames_arrive_in_order() {
    let (a, b) = (EngineId::new(1), EngineId::new(2));
    let mut here = Session::new(a, b);
    let mut there = Session::new(b, a);
    assert_eq!(here.local_engine_id(), a);
    assert_eq!(here.remote_engine_id(), b);
    let create = ProtocolControlFrame::CreatePeer(PeerId::new(1), PeerRoleId::new(3));
    here.send_frame(RoutedFrame::Control(create)).unwrap();
    here.send_frame(packet(vec![7, 8])).unwrap();
    while !here.outgoing().is_empty() {
        let count = here.outgoing().len().min(5);
        there.feed(&here.outgoing()[..count].to_vec());
        here.sent(count);
    }
    let frames = there.receive_frames().unwrap();
    assert_eq!(frames.len(), 2);
    assert!(matches!(frames[0], RoutedFrame::Control(frame) if frame == create));
    match &frames[1] {
        RoutedFrame::Packet(peer, channel, packet) => {
            assert_eq!(*peer, PeerId::new(1));
            assert_eq!(*channel, ChannelId::new(2));
            assert_eq!(packet.data, vec![7, 8]);
            assert_eq!(packet.sender, Some(a));
        }
        _ => panic!(),
    }
    assert!(there.receive_frames().unwrap().is_empty());
    there.terminate();
    assert_eq!(there.maintain(), Err(Error::SessionTerminated));
    assert_eq!(here.maintain(), Ok(()));
}

#[test]
fn bytes_that_are_no_frames_are_refused() {
    assert_eq!(read_frames(vec![9, 9]).err(), Some(Error::UnknownFrame));
    assert_eq!(read_frames(vec![]), Ok(vec![]));
    let frames = read_frames(vec![1, 2, 5, 0, 0, 0, 0, 0, 0, 0, 1]).unwrap();
    assert_eq!(
        frames,
        vec![ProtocolFrame::Control(ProtocolControlFrame::DestroyPeer(
            PeerId::new(5)
        ))]
    );
}
