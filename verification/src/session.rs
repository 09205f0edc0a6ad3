//! Frames over a stream of bytes.

use vstd::prelude::*;

use crate::buffer::Buffer;
use crate::endian::{
    lemma_byte_powers, lemma_little_endian, little_endian, little_endian_value, to_little_endian,
};
use crate::engine::EngineId;
use crate::error::Error;
use crate::protocol::{FrameView, ProtocolFrame, RoutedFrame, RoutedFrameView};
use crate::wire::failure;

verus! {

/// The bytes by which a machine says who it is.
pub open spec fn greeting_bytes(engine_id: EngineId) -> Seq<u8> {
    little_endian(engine_id.0 as nat, 16)
}

/// The bytes by which a machine says who it is.
pub fn greeting(engine_id: EngineId) -> (result: Vec<u8>)
    ensures
        result@ == greeting_bytes(engine_id),
        result@.len() == 16,
{
    proof {
        lemma_little_endian(engine_id.0 as nat, 16);
    }
    to_little_endian(engine_id.0, 16)
}

/// Who a machine is that said so.
pub fn read_greeting(bytes: &[u8]) -> (result: Option<EngineId>)
    ensures
        match result {
            Some(engine_id) => bytes@.len() == 16 && engine_id.0 == little_endian_value(bytes@),
            None => bytes@.len() != 16,
        },
{
    if bytes.len() != 16 {
        return None;
    }
    let mut number: u128 = 0;
    let mut index: usize = 16;
    assert(bytes@.skip(16) =~= Seq::<u8>::empty());
    while index > 0
        invariant
            index <= 16,
            bytes@.len() == 16,
            number == little_endian_value(bytes@.skip(index as int)),
        decreases index,
    {
        let ghost tail = bytes@.skip(index as int);
        let ghost more = bytes@.skip(index - 1);
        proof {
            assert(more.skip(1) =~= tail);
            assert(more[0] == bytes@[index - 1]);
            lemma_tail_fits(more, index as int);
        }
        index = index - 1;
        number = bytes[index] as u128 + 256 * number;
    }
    assert(bytes@.skip(0) =~= bytes@);
    Some(EngineId(number))
}

proof fn lemma_tail_fits(bytes: Seq<u8>, index: int)
    requires
        0 < index <= 16,
        bytes.len() == 17 - index,
    ensures
        little_endian_value(bytes) <= u128::MAX,
{
    crate::endian::lemma_little_endian_value(bytes);
    lemma_byte_powers();
    lemma_powers_grow(bytes.len(), 16);
}

proof fn lemma_powers_grow(small: nat, large: nat)
    requires
        small <= large,
    ensures
        crate::endian::byte_power(small) <= crate::endian::byte_power(large),
    decreases large,
{
    if small < large {
        lemma_powers_grow(small, (large - 1) as nat);
    }
}

/// A machine is known by what it said.
pub proof fn law_greeting_round_trip(engine_id: EngineId)
    ensures
        greeting_bytes(engine_id).len() == 16,
        little_endian_value(greeting_bytes(engine_id)) == engine_id.0,
{
    lemma_byte_powers();
    lemma_little_endian(engine_id.0 as nat, 16);
}

/// The frames at the start of `bytes`, up to the first that is cut short.
pub open spec fn parse_frames(bytes: Seq<u8>) -> Result<Seq<FrameView>, Error>
    decreases bytes.len(),
{
    let first = FrameView::parse(bytes);
    match first.result {
        Err(error) => if error == Error::UnexpectedEof {
            Ok(Seq::empty())
        } else {
            Err(error)
        },
        Ok(frame) => if 0 < first.consumed <= bytes.len() {
            match parse_frames(bytes.skip(first.consumed as int)) {
                Ok(rest) => Ok(seq![frame] + rest),
                Err(error) => Err(error),
            }
        } else {
            Ok(Seq::empty())
        },
    }
}

/// The bytes of frames one after the other.
pub open spec fn frames_bytes(frames: Seq<FrameView>) -> Seq<u8>
    decreases frames.len(),
{
    if frames.len() == 0 {
        Seq::empty()
    } else {
        frames[0].bytes() + frames_bytes(frames.skip(1))
    }
}

/// Frames come out as they were put in.
pub proof fn law_frames_round_trip(frames: Seq<FrameView>)
    requires
        forall|i: int| 0 <= i < frames.len() ==> (#[trigger] frames[i]).fits(),
    ensures
        parse_frames(frames_bytes(frames)) == Ok::<Seq<FrameView>, Error>(frames),
    decreases frames.len(),
{
    if frames.len() == 0 {
        assert(frames =~= Seq::<FrameView>::empty());
    } else {
        let rest = frames.skip(1);
        assert forall|i: int| 0 <= i < rest.len() implies (#[trigger] rest[i]).fits() by {
            assert(rest[i] == frames[i + 1]);
        }
        law_frames_round_trip(rest);
        let bytes = frames_bytes(frames);
        frames[0].law_round_trip(frames_bytes(rest));
        FrameView::lemma_parse_is_within(bytes);
        assert(frames[0].bytes().len() > 0);
        assert(bytes.skip(frames[0].bytes().len() as int) =~= frames_bytes(rest));
        assert(seq![frames[0]] + rest =~= frames);
    }
}

/// The bytes of one more frame stand behind those of the others.
pub proof fn law_bytes_of_one_more_frame(frames: Seq<FrameView>, frame: FrameView)
    ensures
        frames_bytes(frames.push(frame)) == frames_bytes(frames) + frame.bytes(),
    decreases frames.len(),
{
    let all = frames.push(frame);
    if frames.len() == 0 {
        assert(all.skip(1) =~= Seq::<FrameView>::empty());
        assert(frames_bytes(all.skip(1)) =~= Seq::<u8>::empty());
        assert(frames_bytes(all) =~= frames_bytes(frames) + frame.bytes());
    } else {
        law_bytes_of_one_more_frame(frames.skip(1), frame);
        assert(all.skip(1) =~= frames.skip(1).push(frame));
        assert(frames_bytes(all) =~= frames_bytes(frames) + frame.bytes());
    }
}

/// What frames say on the wire, one by one.
pub open spec fn wire_views(frames: Seq<ProtocolFrame>) -> Seq<FrameView> {
    frames.map_values(|frame: ProtocolFrame| frame@)
}

/// Reads frames up to the first that is cut short.
pub fn read_frames(bytes: Vec<u8>) -> (result: Result<Vec<ProtocolFrame>, Error>)
    ensures
        match result {
            Ok(frames) => parse_frames(bytes@) == Ok::<Seq<FrameView>, Error>(wire_views(frames@)),
            Err(error) => parse_frames(bytes@) == Err::<Seq<FrameView>, Error>(error),
        },
{
    let ghost all = bytes@;
    let mut buffer = Buffer::new(bytes);
    assert(buffer@.rest =~= all);
    let mut frames: Vec<ProtocolFrame> = Vec::new();
    proof {
        lemma_no_frames_in_front(parse_frames(all));
        assert(wire_views(frames@) =~= Seq::<FrameView>::empty());
    }
    loop
        invariant
            all == bytes@,
            parse_frames(all) == in_front_of(wire_views(frames@), parse_frames(buffer@.rest)),
        decreases buffer@.rest.len(),
    {
        let ghost rest = buffer@.rest;
        let ghost before = wire_views(frames@);
        proof {
            FrameView::lemma_parse_is_within(rest);
        }
        match ProtocolFrame::read(&mut buffer) {
            Err(error) => {
                return if error == Error::UnexpectedEof {
                    assert(before + Seq::<FrameView>::empty() =~= before);
                    Ok(frames)
                } else {
                    Err(error)
                };
            },
            Ok(frame) => {
                frames.push(frame);
                proof {
                    assert(rest.len() > 0);
                    let later = parse_frames(buffer@.rest);
                    assert(buffer@.rest =~= rest.skip(
                        FrameView::parse(rest).consumed as int,
                    ));
                    assert(wire_views(frames@) =~= before.push(frame@));
                    if let Ok(more) = later {
                        assert(before + (seq![frame@] + more) =~= before.push(frame@) + more);
                    }
                }
            },
        }
    }
}

/// Frames that were read, and what the rest gives.
spec fn in_front_of(
    frames: Seq<FrameView>,
    rest: Result<Seq<FrameView>, Error>,
) -> Result<Seq<FrameView>, Error> {
    match rest {
        Ok(more) => Ok(frames + more),
        Err(error) => Err(error),
    }
}

proof fn lemma_no_frames_in_front(rest: Result<Seq<FrameView>, Error>)
    ensures
        in_front_of(Seq::empty(), rest) == rest,
{
    if let Ok(more) = rest {
        assert(Seq::<FrameView>::empty() + more =~= more);
    }
}

/// The frame, with the machine it comes from if that is not known yet.
pub open spec fn stamped(frame: RoutedFrameView, engine_id: EngineId, anew: bool) -> RoutedFrameView {
    match frame {
        RoutedFrameView::Control(control) => RoutedFrameView::Control(control),
        RoutedFrameView::Packet(peer_id, channel_id, packet) => RoutedFrameView::Packet(
            peer_id,
            channel_id,
            if anew || packet.sender is None {
                crate::protocol::PacketDataView { sender: Some(engine_id), ..packet }
            } else {
                packet
            },
        ),
    }
}

/// Notes the machine that a frame comes from: in any case, or if that is not known yet.
fn stamp(frame: RoutedFrame, engine_id: EngineId, anew: bool) -> (result: RoutedFrame)
    ensures
        result@ == stamped(frame@, engine_id, anew),
{
    match frame {
        RoutedFrame::Control(control) => RoutedFrame::Control(control),
        RoutedFrame::Packet(peer_id, channel_id, mut packet) => {
            if anew || packet.sender.is_none() {
                packet.sender = Some(engine_id);
            }
            RoutedFrame::Packet(peer_id, channel_id, packet)
        },
    }
}

/// The talk of two machines over a stream, without the stream.
pub struct Session {
    local_engine_id: EngineId,
    remote_engine_id: EngineId,
    buffer_in: Vec<u8>,
    buffer_out: Vec<u8>,
    terminated: bool,
}

/// What a [`Session`] holds.
#[verifier::ext_equal]
pub struct SessionView {
    pub local_engine_id: EngineId,
    pub remote_engine_id: EngineId,
    /// Bytes that came.
    pub incoming: Seq<u8>,
    /// Bytes to send.
    pub outgoing: Seq<u8>,
    pub terminated: bool,
}

impl View for Session {
    type V = SessionView;

    closed spec fn view(&self) -> SessionView {
        SessionView {
            local_engine_id: self.local_engine_id,
            remote_engine_id: self.remote_engine_id,
            incoming: self.buffer_in@,
            outgoing: self.buffer_out@,
            terminated: self.terminated,
        }
    }
}

/// Whether these are the frames that came over the wire, as a meeting gets them.
pub open spec fn arrived(
    frames: Seq<RoutedFrame>,
    wire: Seq<FrameView>,
    remote_engine_id: EngineId,
) -> bool {
    &&& frames.len() == wire.len()
    &&& forall|i: int|
        0 <= i < frames.len() ==> (#[trigger] frames[i])@ == stamped(
            RoutedFrameView::from_wire(wire[i]),
            remote_engine_id,
            false,
        )
}

impl Session {
    pub fn new(local_engine_id: EngineId, remote_engine_id: EngineId) -> (result: Self)
        ensures
            result@ == (SessionView {
                local_engine_id,
                remote_engine_id,
                incoming: Seq::empty(),
                outgoing: Seq::empty(),
                terminated: false,
            }),
    {
        Session {
            local_engine_id,
            remote_engine_id,
            buffer_in: Vec::new(),
            buffer_out: Vec::new(),
            terminated: false,
        }
    }

    pub fn local_engine_id(&self) -> (result: EngineId)
        ensures
            result == self@.local_engine_id,
    {
        self.local_engine_id
    }

    pub fn remote_engine_id(&self) -> (result: EngineId)
        ensures
            result == self@.remote_engine_id,
    {
        self.remote_engine_id
    }

    /// Whether the session goes on.
    pub fn maintain(&self) -> (result: Result<(), Error>)
        ensures
            failure(result) == (if self@.terminated {
                Some(Error::SessionTerminated)
            } else {
                None
            }),
    {
        if self.terminated {
            Err(Error::SessionTerminated)
        } else {
            Ok(())
        }
    }

    /// Ends the session.
    pub fn terminate(&mut self)
        ensures
            final(self)@ == (SessionView { terminated: true, ..old(self)@ }),
    {
        self.terminated = true;
    }

    /// Adds bytes that came.
    pub fn feed(&mut self, bytes: &[u8])
        ensures
            final(self)@ == (SessionView {
                incoming: old(self)@.incoming + bytes@,
                ..old(self)@
            }),
    {
        let ghost before = self@;
        self.buffer_in.extend_from_slice(bytes);
        assert(self@.incoming =~= before.incoming + bytes@);
    }

    /// Takes the frames that came. A frame that is cut short is lost. Where there is a frame of a
    /// type that nobody knows, no frame is taken and all bytes stay.
    pub fn receive_frames(&mut self) -> (result: Result<Vec<RoutedFrame>, Error>)
        ensures
            match (result, parse_frames(old(self)@.incoming)) {
                (Ok(frames), Ok(wire)) => {
                    &&& arrived(frames@, wire, old(self)@.remote_engine_id)
                    &&& final(self)@ == (SessionView { incoming: Seq::empty(), ..old(self)@ })
                },
                (Err(error), Err(reason)) => error == reason && final(self)@ == old(self)@,
                _ => false,
            },
    {
        let ghost before = self@;
        let copy = vstd::slice::slice_to_vec(self.buffer_in.as_slice());
        let mut wire: Vec<ProtocolFrame> = match read_frames(copy) {
            Ok(wire) => wire,
            Err(error) => return Err(error),
        };
        self.buffer_in = Vec::new();
        assert(self@ =~= (SessionView { incoming: Seq::empty(), ..before }));
        let ghost all = wire_views(wire@);
        let mut frames: Vec<RoutedFrame> = Vec::new();
        let total: usize = wire.len();
        let mut i: usize = 0;
        assert(wire@.skip(0) =~= wire@);
        let ghost waiting = wire@;
        while i < total
            invariant
                i <= total,
                total == waiting.len(),
                all == wire_views(waiting),
                wire@ == waiting.skip(i as int),
                self@ == (SessionView { incoming: Seq::empty(), ..before }),
                arrived(frames@, all.take(i as int), before.remote_engine_id),
            decreases total - i,
        {
            let frame = wire.remove(0);
            assert(frame == waiting[i as int]);
            assert(frame@ == all[i as int]);
            assert(wire@ =~= waiting.skip(i + 1));
            let routed = RoutedFrame::from_protocol_frame(frame);
            frames.push(stamp(routed, self.remote_engine_id, false));
            assert(all.take(i + 1) =~= all.take(i as int).push(all[i as int]));
            i = i + 1;
        }
        assert(all.take(i as int) =~= all);
        Ok(frames)
    }

    /// Adds a frame to send. Packets are noted as coming from this machine.
    pub fn send_frame(&mut self, frame: RoutedFrame) -> (result: Result<(), Error>)
        ensures
            result is Ok,
            final(self)@ == (SessionView {
                outgoing: old(self)@.outgoing + frame@.on_wire().bytes(),
                ..old(self)@
            }),
    {
        let ghost before = self@;
        let ghost bytes = frame@.on_wire().bytes();
        let stamped = stamp(frame, self.local_engine_id, true);
        let mut buffer = Buffer::new(Vec::new());
        let result = stamped.into_protocol_frame().write(&mut buffer);
        assert(buffer@.bytes() =~= bytes);
        let mut content = buffer.into_inner();
        self.buffer_out.append(&mut content);
        assert(self@.outgoing =~= before.outgoing + bytes);
        result
    }

    /// The bytes to send.
    pub fn outgoing(&self) -> (result: &Vec<u8>)
        ensures
            result@ == self@.outgoing,
    {
        &self.buffer_out
    }

    /// Takes note that the first `count` bytes were sent.
    pub fn sent(&mut self, count: usize)
        requires
            count <= old(self)@.outgoing.len(),
        ensures
            final(self)@ == (SessionView {
                outgoing: old(self)@.outgoing.skip(count as int),
                ..old(self)@
            }),
    {
        let ghost before = self@;
        self.buffer_out = self.buffer_out.split_off(count);
        assert(self@.outgoing =~= before.outgoing.skip(count as int));
    }
}

/// Bytes that hold whole frames and then part of one give the whole frames; where behind them no
/// frame can begin, they give the error of that.
pub proof fn law_frames_before_a_cut(frames: Seq<FrameView>, tail: Seq<u8>, error: Error)
    requires
        forall|i: int| 0 <= i < frames.len() ==> (#[trigger] frames[i]).fits(),
        FrameView::parse(tail).result == Err::<FrameView, Error>(error),
    ensures
        error == Error::UnexpectedEof ==> parse_frames(frames_bytes(frames) + tail) == Ok::<
            Seq<FrameView>,
            Error,
        >(frames),
        error != Error::UnexpectedEof ==> parse_frames(frames_bytes(frames) + tail) == Err::<
            Seq<FrameView>,
            Error,
        >(error),
    decreases frames.len(),
{
    let bytes = frames_bytes(frames) + tail;
    if frames.len() == 0 {
        assert(frames =~= Seq::<FrameView>::empty());
        assert(bytes =~= tail);
    } else {
        let rest = frames.skip(1);
        assert forall|i: int| 0 <= i < rest.len() implies (#[trigger] rest[i]).fits() by {
            assert(rest[i] == frames[i + 1]);
        }
        law_frames_before_a_cut(rest, tail, error);
        let behind = frames_bytes(rest) + tail;
        frames[0].law_round_trip(behind);
        assert(bytes =~= frames[0].bytes() + behind);
        FrameView::lemma_parse_is_within(bytes);
        assert(frames[0].bytes().len() > 0);
        assert(bytes.skip(frames[0].bytes().len() as int) =~= behind);
        assert(seq![frames[0]] + rest =~= frames);
    }
}

/// A packet that comes or goes through a session is marked with the machine that it is from,
/// unless it has such a mark and keeps it; nothing else of it changes, and of other frames nothing
/// at all.
pub proof fn law_marked_with_its_machine(
    frame: RoutedFrameView,
    engine_id: EngineId,
    anew: bool,
)
    ensures
        frame is Control ==> stamped(frame, engine_id, anew) == frame,
        frame matches RoutedFrameView::Packet(peer_id, channel_id, packet) ==> {
            let after = stamped(frame, engine_id, anew);
            &&& after is Packet
            &&& after->Packet_0 == peer_id
            &&& after->Packet_1 == channel_id
            &&& after->Packet_2.data == packet.data
            &&& after->Packet_2.recepients == packet.recepients
            &&& anew ==> after->Packet_2.sender == Some(engine_id)
            &&& packet.sender is None ==> after->Packet_2.sender == Some(engine_id)
            &&& !anew && packet.sender is Some ==> after->Packet_2.sender == packet.sender
        },
{
}

} // verus!
