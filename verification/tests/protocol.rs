use tehuti::buffer::Buffer;
use tehuti::channel::ChannelId;
use tehuti::error::Error;
use tehuti::peer::{PeerId, PeerRoleId};
use tehuti::protocol::{ProtocolControlFrame, ProtocolFrame, ProtocolPacketFrame};

fn round_trip(frame: &ProtocolFrame) -> Vec<u8> {
    let mut buffer = Buffer::new(Vec::new());
    frame.write(&mut buffer).unwrap();
    let bytes = buffer.into_inner();
    let mut buffer = Buffer::new(bytes.clone());
    assert_eq!(&ProtocolFrame::read(&mut buffer).unwrap(), frame);
    assert_eq!(buffer.remaining(), 0);
    bytes
}

#[test]
fn test_protocol_heartbeat() {
    let frame = ProtocolControlFrame::Heartbeat {
        timestamp: 123456789,
    };
    let mut buffer = Buffer::new(Vec::new());
    frame.write(&mut buffer).unwrap();
    let mut cursor = Buffer::new(buffer.into_inner());
    let read_frame = ProtocolControlFrame::read(&mut cursor).unwrap();
    match read_frame {
        ProtocolControlFrame::Heartbeat { timestamp } => {
            assert_eq!(timestamp, 123456789);
        }
        _ => panic!("Expected Heartbeat frame"),
    }
}

#[test]
fn test_protocol_create_peer() {
    let frame = ProtocolControlFrame::CreatePeer(PeerId::new(1), PeerRoleId::new(2));
    let mut buffer = Buffer::new(Vec::new());
    frame.write(&mut buffer).unwrap();
    let mut cursor = Buffer::new(buffer.into_inner());
    let read_frame = ProtocolControlFrame::read(&mut cursor).unwrap();
    match read_frame {
        ProtocolControlFrame::CreatePeer(peer_id, role_id) => {
            assert_eq!(peer_id.id(), 1);
            assert_eq!(role_id.id(), 2);
        }
        _ => panic!("Expected CreatePeer frame"),
    }
}

#[test]
fn test_protocol_destroy_peer() {
    let frame = ProtocolControlFrame::DestroyPeer(PeerId::new(1));
    let mut buffer = Buffer::new(Vec::new());
    frame.write(&mut buffer).unwrap();
    let mut cursor = Buffer::new(buffer.into_inner());
    let read_frame = ProtocolControlFrame::read(&mut cursor).unwrap();
    match read_frame {
        ProtocolControlFrame::DestroyPeer(peer_id) => {
            assert_eq!(peer_id.id(), 1);
        }
        _ => panic!("Expected DestroyPeer frame"),
    }
}

#[test]
fn test_protocol_packet() {
    let data = vec![1, 2, 3, 4, 5];
    let frame = ProtocolPacketFrame {
        peer_id: PeerId::new(1),
        channel_id: ChannelId::new(2),
        data: data.clone(),
    };
    let mut buffer = Buffer::new(Vec::new());
    frame.write(&mut buffer).unwrap();
    let mut cursor = Buffer::new(buffer.into_inner());
    let ProtocolPacketFrame {
        peer_id,
        channel_id,
        data: read_data,
    } = ProtocolPacketFrame::read(&mut cursor).unwrap();
    assert_eq!(peer_id.id(), 1);
    assert_eq!(channel_id.id(), 2);
    assert_eq!(read_data, data);
}

#[test]
fn protocol_test_async() {
    fn is_send<T: Send>() {}

    is_send::<ProtocolControlFrame>();
    is_send::<ProtocolPacketFrame>();
}

#[test]
fn frames_have_exact_bytes() {
    let bytes = round_trip(&ProtocolFrame::Control(ProtocolControlFrame::CreatePeer(
        PeerId::new(0x0102),
        PeerRoleId::new(3),
    )));
    assert_eq!(
        bytes,
        vec![1, 1, 2, 1, 0, 0, 0, 0, 0, 0, 3, 0, 0, 0, 0, 0, 0, 0]
    );
    let bytes = round_trip(&ProtocolFrame::Packet(ProtocolPacketFrame {
        peer_id: PeerId::new(1),
        channel_id: ChannelId::new(2),
        data: vec![9, 8],
    }));
    assert_eq!(
        bytes,
        vec![2, 1, 0, 0, 0, 0, 0, 0, 0, 2, 0, 0, 0, 0, 0, 0, 0, 2, 0, 0, 0, 9, 8]
    );
}

#[test]
fn unknown_frames_are_refused() {
    let mut buffer = Buffer::new(vec![3]);
    assert_eq!(
        ProtocolControlFrame::read(&mut buffer),
        Err(Error::UnknownFrame)
    );
    let mut buffer = Buffer::new(vec![0, 1, 2]);
    assert_eq!(ProtocolFrame::read(&mut buffer), Err(Error::UnknownFrame));
    assert_eq!(buffer.position(), 1);
}

#[test]
fn cut_frames_are_refused() {
    let mut buffer = Buffer::new(Vec::new());
    assert_eq!(ProtocolFrame::read(&mut buffer), Err(Error::UnexpectedEof));
    let mut buffer = Buffer::new(vec![1, 0, 5, 0, 0]);
    assert_eq!(ProtocolFrame::read(&mut buffer), Err(Error::UnexpectedEof));
    let mut bytes = vec![2u8; 17];
    bytes.extend_from_slice(&[4, 0, 0, 0, 1, 2, 3]);
    let mut buffer = Buffer::new(bytes);
    assert_eq!(ProtocolFrame::read(&mut buffer), Err(Error::UnexpectedEof));
}
