//! Values that live on several machines, by number.

use std::collections::VecDeque;
use vstd::prelude::*;
use vstd::utf8::encode_utf8;

use crate::buffer::Buffer;
use crate::channel::{ChannelId, Dispatch};
use crate::codec::{Codec, LosslessCodec};
use crate::endian::{
    lemma_byte_powers, lemma_little_endian, law_little_endian_round_trip, little_endian,
    parse_little_endian, read_little_endian, write_little_endian,
};
use crate::engine::{packet_views, EngineId};
use crate::error::Error;
use crate::label::{label, numeral};
use crate::ordered_map::{
    has_key, keys_ascend, law_with_value, law_without_key, lemma_only_place, lemma_place, lemma_same_keys, lemma_viewed,
    lemma_viewed_update, place_of, value_of, viewed, with_value, without_key, OrderedMap,
};
use crate::peer::{found_end, Peer};
use crate::primitive::{
    block_bytes, law_block_round_trip, parse_block, read_block, write_block,
};
use crate::protocol::{parse_number, read_number, PacketDataView, ProtocolPacketData};
use crate::replication::rpc::{HeadView, Rpc, RpcPartialDecoder};
use crate::replication::{
    emit_tagged, parse_tagged, DefaultReplicable, LosslessReplicable, Replicable, Replicated,
    ReplicationPolicy,
};
use crate::wire::{failure, Applied, Emitted, Parsed};

verus! {

broadcast use vstd::std_specs::vecdeque::group_vec_dequeue_axioms;

/// Tells replicas apart.
#[derive(Debug, Clone, Copy, PartialEq, Eq, PartialOrd, Ord, Hash, Structural)]
pub struct ReplicaId(pub u64);

impl ReplicaId {
    pub fn new(id: u64) -> (result: Self)
        ensures
            result.0 == id,
    {
        ReplicaId(id)
    }

    pub fn id(&self) -> (result: u64)
        ensures
            result == self.0,
    {
        self.0
    }

    /// The id as text.
    pub fn to_text(&self) -> (result: String)
        ensures
            result@ == "#replica:"@ + numeral(self.0 as nat),
    {
        label("#replica:", self.0 as u128)
    }
}

impl Default for ReplicaId {
    fn default() -> (result: Self)
        ensures
            result.0 == 0,
    {
        ReplicaId(0)
    }
}

impl Replicable for ReplicaId {
    type Model = ReplicaId;

    open spec fn model(self) -> ReplicaId {
        self
    }

    open spec fn emit(self) -> Emitted {
        <u64 as Replicable>::emit(self.0)
    }

    open spec fn parse(prior: ReplicaId, bytes: Seq<u8>) -> Applied<ReplicaId> {
        let number = <u64 as Replicable>::parse(prior.0, bytes);
        Applied {
            model: ReplicaId(number.model),
            error: number.error,
            consumed: number.consumed,
        }
    }

    proof fn parse_is_within(prior: ReplicaId, bytes: Seq<u8>) {
        <u64 as Replicable>::parse_is_within(prior.0, bytes);
    }

    fn collect_changes(&self, buffer: &mut Buffer) -> (result: Result<(), Error>) {
        self.0.collect_changes(buffer)
    }

    fn apply_changes(&mut self, buffer: &mut Buffer) -> (result: Result<(), Error>) {
        self.0.apply_changes(buffer)
    }
}

impl DefaultReplicable for ReplicaId {
    open spec fn blank() -> ReplicaId {
        ReplicaId(0)
    }

    proof fn default_is_blank(value: ReplicaId) {
    }
}

impl LosslessReplicable for ReplicaId {
    open spec fn fits(self) -> bool {
        true
    }

    proof fn law_round_trip(self, prior: ReplicaId, tail: Seq<u8>) {
        <u64 as LosslessReplicable>::law_round_trip(self.0, prior.0, tail);
    }
}

/// What a replica has to say, with its number.
#[derive(Debug, Clone, PartialEq, Eq, Hash)]
pub struct ReplicationBuffer {
    pub replica_id: ReplicaId,
    pub buffer: Vec<u8>,
}

/// What a [`ReplicationBuffer`] holds.
#[verifier::ext_equal]
pub struct ReplicationView {
    pub replica_id: ReplicaId,
    pub buffer: Seq<u8>,
}

impl View for ReplicationBuffer {
    type V = ReplicationView;

    open spec fn view(&self) -> ReplicationView {
        ReplicationView { replica_id: self.replica_id, buffer: self.buffer@ }
    }
}

impl ReplicationBuffer {
    pub fn replica_id(&self) -> (result: ReplicaId)
        ensures
            result == self@.replica_id,
    {
        self.replica_id
    }
}

impl Codec for ReplicationBuffer {
    type Value = ReplicationBuffer;

    type Model = ReplicationView;

    open spec fn model(value: ReplicationBuffer) -> ReplicationView {
        value@
    }

    open spec fn emit(value: ReplicationBuffer) -> Emitted {
        Emitted::of(
            little_endian(value.replica_id.0 as nat, 8) + block_bytes(value.buffer@),
        )
    }

    open spec fn parse(bytes: Seq<u8>) -> Parsed<ReplicationView> {
        let number = parse_number(bytes);
        let block = parse_block(bytes.skip(8));
        match number.result {
            Err(error) => Parsed { result: Err(error), consumed: number.consumed },
            Ok(id) => Parsed {
                result: match block.result {
                    Ok(content) => Ok(
                        ReplicationView { replica_id: ReplicaId(id), buffer: content },
                    ),
                    Err(error) => Err(error),
                },
                consumed: 8 + block.consumed,
            },
        }
    }

    proof fn parse_is_within(bytes: Seq<u8>) {
    }

    fn encode(message: &ReplicationBuffer, buffer: &mut Buffer) -> (result: Result<(), Error>) {
        let ghost before = buffer@;
        write_little_endian(buffer, message.replica_id.0 as u128, 8);
        write_block(buffer, message.buffer.as_slice());
        proof {
            before.lemma_written_twice(
                little_endian(message.replica_id.0 as nat, 8),
                block_bytes(message.buffer@),
            );
        }
        Ok(())
    }

    fn decode(buffer: &mut Buffer) -> (result: Result<ReplicationBuffer, Error>) {
        let ghost before = buffer@;
        match read_number(buffer) {
            Err(error) => Err(error),
            Ok(id) => {
                assert(buffer@.rest =~= before.rest.skip(8));
                proof {
                    before.lemma_advanced_twice(8, parse_block(before.rest.skip(8)).consumed);
                }
                match read_block(buffer) {
                    Ok(content) => Ok(
                        ReplicationBuffer { replica_id: ReplicaId(id), buffer: content },
                    ),
                    Err(error) => Err(error),
                }
            },
        }
    }
}

impl LosslessCodec for ReplicationBuffer {
    open spec fn fits(value: ReplicationBuffer) -> bool {
        value.buffer@.len() <= u64::MAX
    }

    proof fn law_round_trip(value: ReplicationBuffer, tail: Seq<u8>) {
        let number = little_endian(value.replica_id.0 as nat, 8);
        let block = block_bytes(value.buffer@);
        let all = Self::emit(value).bytes + tail;
        lemma_byte_powers();
        lemma_little_endian(value.replica_id.0 as nat, 8);
        law_little_endian_round_trip(value.replica_id.0 as nat, 8, block + tail);
        law_block_round_trip(value.buffer@, tail);
        assert(all =~= number + (block + tail));
        assert(all.skip(8) =~= block + tail);
    }
}

/// Bytes that values and calls are written to and read from one after the other.
pub struct RawReplicationBuffer {
    pub buffer: Buffer,
}

impl RawReplicationBuffer {
    pub fn new(buffer: Vec<u8>) -> (result: Self)
        ensures
            result.buffer@.past == Seq::<u8>::empty(),
            result.buffer@.rest == buffer@,
    {
        let result = RawReplicationBuffer { buffer: Buffer::new(buffer) };
        assert(result.buffer@.rest =~= buffer@);
        result
    }

    pub fn into_inner(self) -> (result: Vec<u8>)
        ensures
            result@ == self.buffer@.bytes(),
    {
        self.buffer.into_inner()
    }

    pub fn size(&self) -> (result: usize)
        ensures
            result == self.buffer@.bytes().len(),
    {
        self.buffer.get_ref().len()
    }

    /// To write values at the cursor.
    pub fn collect_changes_scope(&mut self) -> (result: ReplicaCollectChangesScope<'_>)
        ensures
            result.wf(),
            result.position == old(self).buffer@.past.len(),
            *result.buffer == old(self).buffer,
            final(self).buffer == *final(result.buffer),
    {
        ReplicaCollectChangesScope::new(&mut self.buffer)
    }

    /// To read values from the cursor on.
    pub fn apply_changes_scope(&mut self) -> (result: ReplicaApplyChangesScope<'_>)
        ensures
            result.wf(),
            result.position == old(self).buffer@.past.len(),
            *result.buffer == old(self).buffer,
            final(self).buffer == *final(result.buffer),
    {
        ReplicaApplyChangesScope::new(&mut self.buffer)
    }

    /// Writes a call at the cursor, behind its length in four bytes. A call that cannot be
    /// written leaves nothing behind.
    pub fn rpc_encode<Output: Codec, Input: Codec, const TYPE_HASH: u64>(
        &mut self,
        rpc: Rpc<Output, Input, TYPE_HASH>,
    ) -> (result: Result<(), Error>)
        ensures
            failure(result) == <Rpc<Output, Input, TYPE_HASH> as Codec>::emit(rpc).error,
            final(self).buffer@ == (match <Rpc<Output, Input, TYPE_HASH> as Codec>::emit(
                rpc,
            ).error {
                None => old(self).buffer@.written(
                    counted_rpc(<Rpc<Output, Input, TYPE_HASH> as Codec>::emit(rpc).bytes),
                ),
                Some(_) => old(self).buffer@,
            }),
    {
        let ghost before = self.buffer@;
        let ghost content = <Rpc<Output, Input, TYPE_HASH> as Codec>::emit(rpc).bytes;
        let mut buffer = Buffer::new(Vec::new());
        match rpc.encode(&mut buffer) {
            Err(error) => Err(error),
            Ok(_) => {
                assert(buffer@.bytes() =~= content);
                let bytes = buffer.into_inner();
                write_little_endian(&mut self.buffer, bytes.len() as u128, 4);
                self.buffer.write_all(bytes.as_slice());
                proof {
                    before.lemma_written_twice(little_endian(content.len(), 4), content);
                }
                Ok(())
            },
        }
    }

    /// Reads the head of a call from the cursor on. The whole call is taken.
    pub fn rpc_decode(&mut self) -> (result: Result<RpcPartialDecoder, Error>)
        ensures
            final(self).buffer@ == old(self).buffer@.advanced(
                parse_counted_rpc(old(self).buffer@.rest).consumed,
            ),
            match parse_counted_rpc(old(self).buffer@.rest).result {
                Err(error) => failure(result) == Some(error),
                Ok(content) => match result {
                    Ok(decoder) => {
                        &&& HeadView::parse(None, content).result == Ok::<HeadView, Error>(
                            decoder.head(),
                        )
                        &&& decoder.rest() == content.skip(
                            HeadView::parse(None, content).consumed as int,
                        )
                    },
                    Err(error) => HeadView::parse(None, content).result == Err::<
                        HeadView,
                        Error,
                    >(error),
                },
            },
    {
        let ghost before = self.buffer@;
        let ghost bytes = before.rest;
        let length: u64 = match read_little_endian(&mut self.buffer, 4) {
            Ok(length) => length,
            Err(error) => return Err(error),
        };
        let ghost between = self.buffer@;
        assert(between.rest =~= bytes.skip(4));
        proof {
            before.lemma_advanced_twice(4, length as nat);
        }
        match self.buffer.read_exact(length) {
            Ok(content) => {
                assert(between.rest.take(length as int) =~= bytes.subrange(4, 4 + length as int));
                RpcPartialDecoder::new(content)
            },
            Err(error) => {
                assert(self.buffer@ =~= before.advanced(bytes.len()));
                Err(error)
            },
        }
    }
}

/// A call behind its length in four bytes.
pub open spec fn counted_rpc(content: Seq<u8>) -> Seq<u8> {
    little_endian(content.len(), 4) + content
}

/// What reading a call behind its length gives.
pub open spec fn parse_counted_rpc(bytes: Seq<u8>) -> Parsed<Seq<u8>> {
    let length = parse_little_endian(bytes, 4);
    match length.result {
        Err(error) => Parsed { result: Err(error), consumed: length.consumed },
        Ok(count) => if 4 + count <= bytes.len() {
            Parsed { result: Ok(bytes.subrange(4, 4 + count as int)), consumed: 4 + count }
        } else {
            Parsed::eof(bytes)
        },
    }
}

/// Reading gives back the bytes of the call that were written, and takes exactly those.
pub proof fn law_counted_rpc_round_trip(content: Seq<u8>, tail: Seq<u8>)
    requires
        content.len() <= u32::MAX,
    ensures
        parse_counted_rpc(counted_rpc(content) + tail) == (Parsed {
            result: Ok::<Seq<u8>, Error>(content),
            consumed: counted_rpc(content).len(),
        }),
{
    let all = counted_rpc(content) + tail;
    lemma_byte_powers();
    lemma_little_endian(content.len(), 4);
    law_little_endian_round_trip(content.len(), 4, content + tail);
    assert(all =~= little_endian(content.len(), 4) + (content + tail));
    assert(all.subrange(4, 4 + content.len() as int) =~= content);
}

impl Default for RawReplicationBuffer {
    fn default() -> (result: Self)
        ensures
            result.buffer@.bytes() == Seq::<u8>::empty(),
            result.buffer@.past == Seq::<u8>::empty(),
    {
        let result = RawReplicationBuffer::new(Vec::new());
        assert(result.buffer@.bytes() =~= Seq::<u8>::empty());
        result
    }
}

impl Codec for RawReplicationBuffer {
    type Value = RawReplicationBuffer;

    type Model = Seq<u8>;

    open spec fn model(value: RawReplicationBuffer) -> Seq<u8> {
        value.buffer@.bytes()
    }

    open spec fn emit(value: RawReplicationBuffer) -> Emitted {
        Emitted::of(block_bytes(value.buffer@.bytes()))
    }

    open spec fn parse(bytes: Seq<u8>) -> Parsed<Seq<u8>> {
        parse_block(bytes)
    }

    proof fn parse_is_within(bytes: Seq<u8>) {
    }

    fn encode(message: &RawReplicationBuffer, buffer: &mut Buffer) -> (result: Result<(), Error>) {
        write_block(buffer, message.buffer.get_ref().as_slice());
        Ok(())
    }

    fn decode(buffer: &mut Buffer) -> (result: Result<RawReplicationBuffer, Error>) {
        match read_block(buffer) {
            Ok(content) => {
                let result = RawReplicationBuffer::new(content);
                assert(result.buffer@.bytes() =~= content@);
                Ok(result)
            },
            Err(error) => Err(error),
        }
    }
}

impl LosslessCodec for RawReplicationBuffer {
    open spec fn fits(value: RawReplicationBuffer) -> bool {
        value.buffer@.bytes().len() <= u64::MAX
    }

    proof fn law_round_trip(value: RawReplicationBuffer, tail: Seq<u8>) {
        law_block_round_trip(value.buffer@.bytes(), tail);
    }
}

/// A part of what is being written that can be taken back.
pub struct ReplicaCollectChangesScope<'a> {
    pub position: usize,
    pub buffer: &'a mut Buffer,
}

impl<'a> ReplicaCollectChangesScope<'a> {
    /// Whether there is a place to go back to.
    pub open spec fn wf(&self) -> bool {
        self.position <= (*self.buffer)@.bytes().len()
    }

    /// A part that starts at the cursor.
    pub fn new(buffer: &'a mut Buffer) -> (result: Self)
        ensures
            result.wf(),
            result.position == old(buffer)@.past.len(),
            *result.buffer == *old(buffer),
            *final(result.buffer) == *final(buffer),
    {
        ReplicaCollectChangesScope { position: buffer.position(), buffer }
    }

    /// Writes a value if its policy tells that it changed.
    pub fn collect_replicated<P: ReplicationPolicy<T>, T: Replicable>(
        &mut self,
        replicated: &mut Replicated<P, T>,
    ) -> (result: Result<(), Error>)
        requires
            old(self).wf(),
        ensures
            final(self).wf(),
            final(self).position == old(self).position,
            *final(final(self).buffer) == *final(old(self).buffer),
            final(replicated).data() == old(replicated).data(),
            exists|changed: bool|
                {
                    &&& #[trigger] old(replicated).meta().detects(
                        old(replicated).data(),
                        final(replicated).meta(),
                        changed,
                    )
                    &&& (*final(self).buffer)@ == (if changed {
                        (*old(self).buffer)@.written(old(replicated).data().emit().bytes)
                    } else {
                        (*old(self).buffer)@
                    })
                    &&& failure(result) == (if changed {
                        old(replicated).data().emit().error
                    } else {
                        None
                    })
                },
    {
        match Replicated::collect_changes(replicated, self.buffer) {
            Ok(_) => Ok(()),
            Err(error) => Err(error),
        }
    }

    /// Writes a value behind a tag and its length if its policy tells that it changed.
    pub fn maybe_collect_replicated<const TAG: u8, P: ReplicationPolicy<T>, T: Replicable>(
        &mut self,
        replicated: &mut Replicated<P, T>,
    ) -> (result: Result<(), Error>)
        requires
            old(self).wf(),
        ensures
            final(self).wf(),
            final(self).position == old(self).position,
            *final(final(self).buffer) == *final(old(self).buffer),
            final(replicated).data() == old(replicated).data(),
            exists|changed: bool|
                {
                    &&& #[trigger] old(replicated).meta().detects(
                        old(replicated).data(),
                        final(replicated).meta(),
                        changed,
                    )
                    &&& (*final(self).buffer)@ == (if changed {
                        (*old(self).buffer)@.written(
                            emit_tagged(TAG, old(replicated).data().emit()).bytes,
                        )
                    } else {
                        (*old(self).buffer)@
                    })
                    &&& failure(result) == (if changed {
                        emit_tagged(TAG, old(replicated).data().emit()).error
                    } else {
                        None
                    })
                },
    {
        match Replicated::maybe_collect_changes::<TAG>(replicated, self.buffer) {
            Ok(_) => Ok(()),
            Err(error) => Err(error),
        }
    }

    /// Writes a value.
    pub fn collect_replicable<T: Replicable>(&mut self, replicable: &T) -> (result: Result<
        (),
        Error,
    >)
        requires
            old(self).wf(),
        ensures
            final(self).wf(),
            final(self).position == old(self).position,
            *final(final(self).buffer) == *final(old(self).buffer),
            (*final(self).buffer)@ == (*old(self).buffer)@.written(replicable.emit().bytes),
            failure(result) == replicable.emit().error,
    {
        replicable.collect_changes(self.buffer)
    }

    /// Goes back to where the part started. What was written stays until it is written over.
    pub fn abort(&mut self)
        requires
            old(self).wf(),
        ensures
            final(self).wf(),
            final(self).position == old(self).position,
            *final(final(self).buffer) == *final(old(self).buffer),
            (*final(self).buffer)@.past == (*old(self).buffer)@.bytes().take(
                old(self).position as int,
            ),
            (*final(self).buffer)@.rest == (*old(self).buffer)@.bytes().skip(
                old(self).position as int,
            ),
    {
        self.buffer.set_position(self.position);
    }

    /// A part of this part.
    pub fn scope(&mut self) -> (result: ReplicaCollectChangesScope<'_>)
        ensures
            result.wf(),
            result.position == (*old(self).buffer)@.past.len(),
            *result.buffer == *old(self).buffer,
            *final(self).buffer == *final(result.buffer),
            final(self).position == old(self).position,
            *final(final(self).buffer) == *final(old(self).buffer),
    {
        ReplicaCollectChangesScope { position: self.buffer.position(), buffer: &mut *self.buffer }
    }
}

/// A part of what is being read that can be read again.
pub struct ReplicaApplyChangesScope<'a> {
    pub position: usize,
    pub buffer: &'a mut Buffer,
}

impl<'a> ReplicaApplyChangesScope<'a> {
    /// Whether there is a place to go back to.
    pub open spec fn wf(&self) -> bool {
        self.position <= (*self.buffer)@.bytes().len()
    }

    /// A part that starts at the cursor.
    pub fn new(buffer: &'a mut Buffer) -> (result: Self)
        ensures
            result.wf(),
            result.position == old(buffer)@.past.len(),
            *result.buffer == *old(buffer),
            *final(result.buffer) == *final(buffer),
    {
        ReplicaApplyChangesScope { position: buffer.position(), buffer }
    }

    /// Reads a value.
    pub fn apply_replicated<P: ReplicationPolicy<T>, T: Replicable>(
        &mut self,
        replicated: &mut Replicated<P, T>,
    ) -> (result: Result<(), Error>)
        requires
            old(self).wf(),
        ensures
            final(self).wf(),
            final(self).position == old(self).position,
            *final(final(self).buffer) == *final(old(self).buffer),
            final(replicated).meta() == old(replicated).meta(),
            final(replicated).data().model() == T::parse(
                old(replicated).data().model(),
                (*old(self).buffer)@.rest,
            ).model,
            failure(result) == T::parse(
                old(replicated).data().model(),
                (*old(self).buffer)@.rest,
            ).error,
            (*final(self).buffer)@ == (*old(self).buffer)@.advanced(
                T::parse(old(replicated).data().model(), (*old(self).buffer)@.rest).consumed,
            ),
    {
        let ghost before = (*self.buffer)@;
        let ghost prior = replicated.data().model();
        proof {
            before.lemma_advanced_keeps_bytes(T::parse(prior, before.rest).consumed);
        }
        Replicated::apply_changes(replicated, self.buffer)
    }

    /// Reads a value behind its tag and length, if the tag comes next.
    pub fn maybe_apply_replicated<const TAG: u8, P: ReplicationPolicy<T>, T: Replicable>(
        &mut self,
        replicated: &mut Replicated<P, T>,
    ) -> (result: Result<(), Error>)
        requires
            old(self).wf(),
        ensures
            final(self).wf(),
            final(self).position == old(self).position,
            *final(final(self).buffer) == *final(old(self).buffer),
            final(replicated).meta() == old(replicated).meta(),
            final(replicated).data().model() == parse_tagged::<T>(
                TAG,
                old(replicated).data().model(),
                (*old(self).buffer)@.rest,
            ).model,
            failure(result) == parse_tagged::<T>(
                TAG,
                old(replicated).data().model(),
                (*old(self).buffer)@.rest,
            ).error,
            (*final(self).buffer)@ == (*old(self).buffer)@.advanced(
                parse_tagged::<T>(
                    TAG,
                    old(replicated).data().model(),
                    (*old(self).buffer)@.rest,
                ).consumed,
            ),
    {
        let ghost before = (*self.buffer)@;
        let ghost prior = replicated.data().model();
        proof {
            before.lemma_advanced_keeps_bytes(parse_tagged::<T>(TAG, prior, before.rest).consumed);
        }
        Replicated::maybe_apply_changes::<TAG>(replicated, self.buffer)
    }

    /// Reads a value.
    pub fn apply_replicable<T: Replicable>(&mut self, replicable: &mut T) -> (result: Result<
        (),
        Error,
    >)
        requires
            old(self).wf(),
        ensures
            final(self).wf(),
            final(self).position == old(self).position,
            *final(final(self).buffer) == *final(old(self).buffer),
            final(replicable).model() == T::parse(
                old(replicable).model(),
                (*old(self).buffer)@.rest,
            ).model,
            failure(result) == T::parse(old(replicable).model(), (*old(self).buffer)@.rest).error,
            (*final(self).buffer)@ == (*old(self).buffer)@.advanced(
                T::parse(old(replicable).model(), (*old(self).buffer)@.rest).consumed,
            ),
    {
        let ghost before = (*self.buffer)@;
        let ghost prior = replicable.model();
        proof {
            before.lemma_advanced_keeps_bytes(T::parse(prior, before.rest).consumed);
        }
        replicable.apply_changes(self.buffer)
    }

    /// Goes back to where the part started.
    pub fn abort(&mut self)
        requires
            old(self).wf(),
        ensures
            final(self).wf(),
            final(self).position == old(self).position,
            *final(final(self).buffer) == *final(old(self).buffer),
            (*final(self).buffer)@.past == (*old(self).buffer)@.bytes().take(
                old(self).position as int,
            ),
            (*final(self).buffer)@.rest == (*old(self).buffer)@.bytes().skip(
                old(self).position as int,
            ),
    {
        self.buffer.set_position(self.position);
    }

    /// A part of this part.
    pub fn scope(&mut self) -> (result: ReplicaApplyChangesScope<'_>)
        ensures
            result.wf(),
            result.position == (*old(self).buffer)@.past.len(),
            *result.buffer == *old(self).buffer,
            *final(self).buffer == *final(result.buffer),
            final(self).position == old(self).position,
            *final(final(self).buffer) == *final(old(self).buffer),
    {
        ReplicaApplyChangesScope { position: self.buffer.position(), buffer: &mut *self.buffer }
    }
}

/// What a replica has to say, as it goes through the channels of a peer.
#[verifier::ext_equal]
pub struct DispatchView {
    pub replica_id: ReplicaId,
    pub packet: PacketDataView,
}

impl View for Dispatch<ReplicationBuffer> {
    type V = DispatchView;

    open spec fn view(&self) -> DispatchView {
        DispatchView {
            replica_id: self.message.replica_id,
            packet: PacketDataView {
                data: self.message.buffer@,
                recepients: self.recepients@,
                sender: self.sender,
            },
        }
    }
}

/// What messages say, one by one.
pub open spec fn dispatch_views(dispatches: Seq<Dispatch<ReplicationBuffer>>) -> Seq<
    DispatchView,
> {
    dispatches.map_values(|dispatch: Dispatch<ReplicationBuffer>| dispatch@)
}

/// The way between a replica and its set.
struct ReplicaInstance {
    /// Tells who holds the replica.
    ticket: u64,
    /// Packets from the replica.
    outbox: VecDeque<ProtocolPacketData>,
    /// Packets for the replica.
    inbox: VecDeque<ProtocolPacketData>,
}

/// Packets on the way between a replica and its set.
#[verifier::ext_equal]
pub struct InstanceView {
    pub ticket: u64,
    pub outbox: Seq<PacketDataView>,
    pub inbox: Seq<PacketDataView>,
}

impl View for ReplicaInstance {
    type V = InstanceView;

    closed spec fn view(&self) -> InstanceView {
        InstanceView {
            ticket: self.ticket,
            outbox: packet_views(self.outbox@),
            inbox: packet_views(self.inbox@),
        }
    }
}

impl InstanceView {
    /// With nothing on the way.
    pub open spec fn fresh(ticket: u64) -> Self {
        InstanceView { ticket, outbox: Seq::empty(), inbox: Seq::empty() }
    }
}

impl ReplicaInstance {
    fn new(ticket: u64) -> (result: Self)
        ensures
            result@ == InstanceView::fresh(ticket),
    {
        let result = ReplicaInstance { ticket, outbox: VecDeque::new(), inbox: VecDeque::new() };
        assert(result@ =~= InstanceView::fresh(ticket));
        result
    }
}

/// Packets for a replica that was taken out, as long as somebody holds it.
struct Leftover {
    inbox: VecDeque<ProtocolPacketData>,
}

impl View for Leftover {
    type V = Seq<PacketDataView>;

    closed spec fn view(&self) -> Seq<PacketDataView> {
        packet_views(self.inbox@)
    }
}

/// The way of one purpose between replicas and the channels of a peer.
struct ReplicaLink {
    /// Messages for the peer to write, if there is a channel for them.
    outbox: Option<VecDeque<Dispatch<ReplicationBuffer>>>,
    /// Messages that the peer read, if there is a channel for them.
    inbox: Option<VecDeque<Dispatch<ReplicationBuffer>>>,
    instances: OrderedMap<ReplicaInstance>,
    /// What is left for those who hold a replica that was taken out, by their tickets.
    left: OrderedMap<Leftover>,
}

/// Messages on the way of one purpose between replicas and the channels of a peer.
#[verifier::ext_equal]
pub struct LinkView {
    pub outbox: Option<Seq<DispatchView>>,
    pub inbox: Option<Seq<DispatchView>>,
    pub instances: Seq<(u64, InstanceView)>,
    /// What is left for those who hold a replica that was taken out, by their tickets.
    pub left: Seq<(u64, Seq<PacketDataView>)>,
}

impl View for ReplicaLink {
    type V = LinkView;

    closed spec fn view(&self) -> LinkView {
        LinkView {
            outbox: match self.outbox {
                Some(queue) => Some(dispatch_views(queue@)),
                None => None,
            },
            inbox: match self.inbox {
                Some(queue) => Some(dispatch_views(queue@)),
                None => None,
            },
            instances: viewed(self.instances@),
            left: viewed(self.left@),
        }
    }
}

/// Packets from a replica, with its number.
pub open spec fn numbered(replica_id: u64, packets: Seq<PacketDataView>) -> Seq<DispatchView> {
    Seq::new(
        packets.len(),
        |i: int| DispatchView { replica_id: ReplicaId(replica_id), packet: packets[i] },
    )
}

/// All packets from replicas, in the order of their numbers.
pub open spec fn gathered(instances: Seq<(u64, InstanceView)>) -> Seq<DispatchView>
    decreases instances.len(),
{
    if instances.len() == 0 {
        Seq::empty()
    } else {
        gathered(instances.drop_last()) + numbered(
            instances.last().0,
            instances.last().1.outbox,
        )
    }
}

/// The packets among messages that are for a replica.
pub open spec fn meant_for(dispatches: Seq<DispatchView>, replica_id: u64) -> Seq<PacketDataView>
    decreases dispatches.len(),
{
    if dispatches.len() == 0 {
        Seq::empty()
    } else {
        let before = meant_for(dispatches.drop_last(), replica_id);
        if dispatches.last().replica_id.0 == replica_id {
            before.push(dispatches.last().packet)
        } else {
            before
        }
    }
}

/// The replicas with nothing left to say.
pub open spec fn silenced(instances: Seq<(u64, InstanceView)>) -> Seq<(u64, InstanceView)> {
    Seq::new(
        instances.len(),
        |i: int| (instances[i].0, InstanceView { outbox: Seq::empty(), ..instances[i].1 }),
    )
}

/// The replicas, each with the packets that are for it.
pub open spec fn handed_out(
    instances: Seq<(u64, InstanceView)>,
    dispatches: Seq<DispatchView>,
) -> Seq<(u64, InstanceView)> {
    Seq::new(
        instances.len(),
        |i: int|
            (
                instances[i].0,
                InstanceView {
                    inbox: instances[i].1.inbox + meant_for(dispatches, instances[i].0),
                    ..instances[i].1
                },
            ),
    )
}

impl LinkView {
    /// A way that leads nowhere.
    pub open spec fn unbound() -> Self {
        LinkView { outbox: None, inbox: None, instances: Seq::empty(), left: Seq::empty() }
    }

    /// Whether the replica that somebody holds is there.
    pub open spec fn knows(self, replica: Replica) -> bool {
        value_of(self.instances, replica.id.0) matches Some(instance) && instance.ticket
            == replica.ticket
    }

    /// The packets for a replica that somebody holds.
    pub open spec fn inbox_of(self, replica: Replica) -> Option<Seq<PacketDataView>> {
        if self.knows(replica) {
            Some(value_of(self.instances, replica.id.0)->Some_0.inbox)
        } else {
            value_of(self.left, replica.ticket)
        }
    }

    /// With other packets for a replica that somebody holds.
    pub open spec fn with_inbox(self, replica: Replica, inbox: Seq<PacketDataView>) -> Self {
        if self.knows(replica) {
            LinkView {
                instances: with_value(
                    self.instances,
                    replica.id.0,
                    InstanceView { inbox, ..value_of(self.instances, replica.id.0)->Some_0 },
                ),
                ..self
            }
        } else {
            LinkView { left: with_value(self.left, replica.ticket, inbox), ..self }
        }
    }

    /// With one more packet from a replica, if it is there.
    pub open spec fn with_packet(self, replica: Replica, packet: PacketDataView) -> Self {
        if self.knows(replica) {
            let instance = value_of(self.instances, replica.id.0)->Some_0;
            LinkView {
                instances: with_value(
                    self.instances,
                    replica.id.0,
                    InstanceView { outbox: instance.outbox.push(packet), ..instance },
                ),
                ..self
            }
        } else {
            self
        }
    }

    /// With one more replica, held under a ticket.
    pub open spec fn with_replica(self, id: ReplicaId, ticket: u64) -> Self {
        LinkView {
            instances: with_value(self.instances, id.0, InstanceView::fresh(ticket)),
            ..self
        }
    }

    /// Without a replica. What waits for it is left to who holds it.
    pub open spec fn without_replica(self, id: ReplicaId) -> Self {
        match value_of(self.instances, id.0) {
            Some(instance) => LinkView {
                instances: without_key(self.instances, id.0),
                left: with_value(self.left, instance.ticket, instance.inbox),
                ..self
            },
            None => self,
        }
    }

    /// Without a replica that nobody holds any more.
    pub open spec fn without_holder(self, replica: Replica) -> Self {
        let rest = self.without_replica(replica.id);
        LinkView { left: without_key(rest.left, replica.ticket), ..rest }
    }

    /// Whether replicas and what is left stand in the order of their numbers.
    pub open spec fn in_order(self) -> bool {
        keys_ascend(self.instances) && keys_ascend(self.left)
    }

    /// Once what replicas had to say is with the peer, if there is a channel for it.
    pub open spec fn after_gathering(self) -> Self {
        match self.outbox {
            None => self,
            Some(queue) => LinkView {
                outbox: Some(queue + gathered(self.instances)),
                instances: silenced(self.instances),
                ..self
            },
        }
    }

    /// Once what the peer read is with the replicas, if there is a channel for it. What is for
    /// nobody is lost.
    pub open spec fn after_handing_out(self) -> Self {
        match self.inbox {
            None => self,
            Some(queue) => LinkView {
                inbox: Some(Seq::empty()),
                instances: handed_out(self.instances, queue),
                ..self
            },
        }
    }
}

/// Takes all packets of a replica.
fn collect_outbox(
    replica_id: u64,
    instance: &mut ReplicaInstance,
    queue: &mut VecDeque<Dispatch<ReplicationBuffer>>,
)
    ensures
        final(instance)@ == (InstanceView { outbox: Seq::empty(), ..old(instance)@ }),
        dispatch_views(final(queue)@) == dispatch_views(old(queue)@) + numbered(
            replica_id,
            old(instance)@.outbox,
        ),
{
    let ghost before = instance@;
    let ghost first = dispatch_views(queue@);
    let ghost packets = before.outbox;
    let count: usize = instance.outbox.len();
    let mut n: usize = 0;
    assert(packets.skip(0) =~= packets);
    assert(first + numbered(replica_id, packets.take(0)) =~= first);
    while n < count
        invariant
            n <= count,
            count == packets.len(),
            packet_views(instance.outbox@) == packets.skip(n as int),
            packet_views(instance.inbox@) == before.inbox,
            instance.ticket == before.ticket,
            dispatch_views(queue@) == first + numbered(replica_id, packets.take(n as int)),
        decreases count - n,
    {
        let ghost rest = instance.outbox@;
        let ghost sent = queue@;
        assert(packet_views(rest).len() == packets.len() - n);
        if let Some(packet) = instance.outbox.pop_front() {
            assert(packet@ == packets.skip(n as int)[0]);
            let ProtocolPacketData { data, recepients, sender } = packet;
            queue.push_back(
                Dispatch {
                    message: ReplicationBuffer {
                        replica_id: ReplicaId(replica_id),
                        buffer: data,
                    },
                    recepients,
                    sender,
                },
            );
            assert(queue@.last()@ =~= (DispatchView {
                replica_id: ReplicaId(replica_id),
                packet: packets[n as int],
            }));
            assert(dispatch_views(queue@) =~= dispatch_views(sent).push(
                DispatchView { replica_id: ReplicaId(replica_id), packet: packets[n as int] },
            ));
        }
        assert forall|x: int| 0 <= x < instance.outbox@.len() implies packet_views(
            instance.outbox@,
        )[x] == #[trigger] packets.skip(n + 1)[x] by {
            assert(packet_views(rest)[x + 1] == packets.skip(n as int)[x + 1]);
        }
        assert(packet_views(instance.outbox@) =~= packets.skip(n + 1));
        n = n + 1;
        assert(dispatch_views(queue@) =~= first + numbered(replica_id, packets.take(n as int)));
    }
    assert(packets.take(n as int) =~= packets);
    assert(instance@ =~= (InstanceView { outbox: Seq::empty(), ..before }));
}

/// Messages on a way, if there is one.
pub open spec fn queued(queue: Option<Seq<DispatchView>>) -> Seq<DispatchView> {
    match queue {
        Some(messages) => messages,
        None => Seq::empty(),
    }
}

/// Messages on a way, if there is one.
fn queue_or_empty(queue: Option<VecDeque<Dispatch<ReplicationBuffer>>>) -> (result: VecDeque<
    Dispatch<ReplicationBuffer>,
>)
    ensures
        match queue {
            Some(messages) => result == messages,
            None => dispatch_views(result@) == Seq::<DispatchView>::empty(),
        },
{
    match queue {
        Some(messages) => messages,
        None => {
            let result: VecDeque<Dispatch<ReplicationBuffer>> = VecDeque::new();
            assert(dispatch_views(result@) =~= Seq::<DispatchView>::empty());
            result
        },
    }
}

/// Messages that were on their way through the ends of a channel when those were bound no more.
pub struct Unbound {
    /// Messages for the peer to write.
    pub outbox: VecDeque<Dispatch<ReplicationBuffer>>,
    /// Messages that the peer read.
    pub inbox: VecDeque<Dispatch<ReplicationBuffer>>,
}

/// What an [`Unbound`] holds.
#[verifier::ext_equal]
pub struct UnboundView {
    pub outbox: Seq<DispatchView>,
    pub inbox: Seq<DispatchView>,
}

impl View for Unbound {
    type V = UnboundView;

    open spec fn view(&self) -> UnboundView {
        UnboundView {
            outbox: dispatch_views(self.outbox@),
            inbox: dispatch_views(self.inbox@),
        }
    }
}

impl UnboundView {
    /// No messages.
    pub open spec fn nothing() -> Self {
        UnboundView { outbox: Seq::empty(), inbox: Seq::empty() }
    }

    /// The messages on a way.
    pub open spec fn of(link: LinkView) -> Self {
        UnboundView { outbox: queued(link.outbox), inbox: queued(link.inbox) }
    }
}

impl Unbound {
    /// No messages.
    fn nothing() -> (result: Self)
        ensures
            result@ == UnboundView::nothing(),
    {
        Unbound { outbox: queue_or_empty(None), inbox: queue_or_empty(None) }
    }
}

impl ReplicaLink {
    fn new() -> (result: Self)
        ensures
            result@ == LinkView::unbound(),
    {
        let result = ReplicaLink {
            outbox: None,
            inbox: None,
            instances: OrderedMap::new(),
            left: OrderedMap::new(),
        };
        assert(result@ =~= LinkView::unbound());
        result
    }

    /// Has messages written, or not. Gives back those that were to be written before.
    fn bind_outbox(&mut self, bound: bool) -> (result: VecDeque<Dispatch<ReplicationBuffer>>)
        ensures
            dispatch_views(result@) == queued(old(self)@.outbox),
            final(self)@ == (LinkView {
                outbox: if bound {
                    Some(Seq::empty())
                } else {
                    None
                },
                ..old(self)@
            }),
    {
        let before = self.outbox.take();
        self.outbox = if bound {
            Some(VecDeque::new())
        } else {
            None
        };
        assert(bound ==> self@.outbox->Some_0 =~= Seq::<DispatchView>::empty());
        queue_or_empty(before)
    }

    /// Has messages read, or not. Gives back those that were read before.
    fn bind_inbox(&mut self, bound: bool) -> (result: VecDeque<Dispatch<ReplicationBuffer>>)
        ensures
            dispatch_views(result@) == queued(old(self)@.inbox),
            final(self)@ == (LinkView {
                inbox: if bound {
                    Some(Seq::empty())
                } else {
                    None
                },
                ..old(self)@
            }),
    {
        let before = self.inbox.take();
        self.inbox = if bound {
            Some(VecDeque::new())
        } else {
            None
        };
        assert(bound ==> self@.inbox->Some_0 =~= Seq::<DispatchView>::empty());
        queue_or_empty(before)
    }

    /// Binds the way, and gives back what was on it.
    fn bind(&mut self, writes: bool, reads: bool) -> (result: Unbound)
        ensures
            final(self)@ == bound_to(old(self)@, writes, reads),
            result@ == UnboundView::of(old(self)@),
    {
        let outbox = self.bind_outbox(writes);
        let inbox = self.bind_inbox(reads);
        Unbound { outbox, inbox }
    }

    /// Takes the first message for the peer to write.
    fn take(&mut self) -> (result: Option<Dispatch<ReplicationBuffer>>)
        ensures
            match old(self)@.outbox {
                None => result is None && final(self)@ == old(self)@,
                Some(queue) => if queue.len() == 0 {
                    result is None && final(self)@ == old(self)@
                } else {
                    &&& result matches Some(dispatch)
                    &&& dispatch@ == queue[0]
                    &&& final(self)@ == (LinkView { outbox: Some(queue.skip(1)), ..old(self)@ })
                },
            },
    {
        let ghost before = self@;
        match &mut self.outbox {
            None => None,
            Some(queue) => {
                let ghost held = dispatch_views(queue@);
                let result = queue.pop_front();
                proof {
                    if held.len() > 0 {
                        assert(dispatch_views(queue@) =~= held.skip(1));
                    } else {
                        assert(dispatch_views(queue@) =~= held);
                    }
                }
                result
            },
        }
    }

    /// Adds a message that the peer read, if there is a channel for it.
    fn put(&mut self, dispatch: Dispatch<ReplicationBuffer>) -> (result: bool)
        ensures
            result == (old(self)@.inbox is Some),
            final(self)@ == (match old(self)@.inbox {
                None => old(self)@,
                Some(queue) => LinkView { inbox: Some(queue.push(dispatch@)), ..old(self)@ },
            }),
    {
        match &mut self.inbox {
            None => false,
            Some(queue) => {
                let ghost held = queue@;
                queue.push_back(dispatch);
                assert(dispatch_views(queue@) =~= dispatch_views(held).push(dispatch@));
                true
            },
        }
    }

    /// Brings what replicas have to say to the peer.
    fn gather(&mut self)
        ensures
            final(self)@ == old(self)@.after_gathering(),
    {
        let ghost before = self@;
        let ghost instances = before.instances;
        if let Some(mut queue) = self.outbox.take() {
            let ghost first = dispatch_views(queue@);
            let total: usize = self.instances.len();
            let mut i: usize = 0;
            assert(first + gathered(instances.take(0)) =~= first);
            while i < total
                invariant
                    i <= total,
                    total == instances.len(),
                    total == self.instances@.len(),
                    self.inbox == old(self).inbox,
                    self.left == old(self).left,
                    forall|k: int|
                        #![trigger viewed(self.instances@)[k]]
                        #![trigger instances[k]]
                        0 <= k < i ==> viewed(self.instances@)[k] == silenced(instances)[k],
                    forall|k: int|
                        #![trigger viewed(self.instances@)[k]]
                        #![trigger instances[k]]
                        i <= k < total ==> viewed(self.instances@)[k] == instances[k],
                    dispatch_views(queue@) == first + gathered(instances.take(i as int)),
                decreases total - i,
            {
                let ghost entries = self.instances@;
                assert(viewed(entries)[i as int] == instances[i as int]);
                let key: u64 = self.instances.key(i);
                let instance = self.instances.value_mut(i);
                collect_outbox(key, instance, &mut queue);
                proof {
                    lemma_viewed_update(entries, i as int, *instance);
                }
                assert(instances.take(i + 1).drop_last() =~= instances.take(i as int));
                i = i + 1;
                assert(dispatch_views(queue@) =~= first + gathered(instances.take(i as int)));
            }
            assert(instances.take(i as int) =~= instances);
            assert(viewed(self.instances@) =~= silenced(instances));
            self.outbox = Some(queue);
        }
    }

    /// Brings what the peer read to the replicas.
    fn hand_out(&mut self)
        ensures
            final(self)@ == old(self)@.after_handing_out(),
    {
        let ghost before = self@;
        let ghost instances = before.instances;
        if let Some(mut queue) = self.inbox.take() {
            let ghost all = dispatch_views(queue@);
            let count: usize = queue.len();
            let mut n: usize = 0;
            assert(all.skip(0) =~= all);
            assert(viewed(self.instances@) =~= handed_out(instances, all.take(0))) by {
                assert forall|k: int| 0 <= k < instances.len() implies #[trigger] handed_out(
                    instances,
                    all.take(0),
                )[k] == instances[k] by {
                    assert(handed_out(instances, all.take(0))[k].1 =~= instances[k].1);
                }
            }
            while n < count
                invariant
                    n <= count,
                    count == all.len(),
                    self.outbox == old(self).outbox,
                    self.left == old(self).left,
                    dispatch_views(queue@) == all.skip(n as int),
                    viewed(self.instances@) == handed_out(instances, all.take(n as int)),
                decreases count - n,
            {
                let ghost rest = queue@;
                let ghost entries = self.instances@;
                let ghost between = viewed(entries);
                assert(entries.len() == instances.len()) by {
                    assert(between.len() == entries.len());
                    assert(handed_out(instances, all.take(n as int)).len() == instances.len());
                }
                assert(dispatch_views(rest).len() == all.len() - n);
                if let Some(dispatch) = queue.pop_front() {
                    assert(dispatch@ == all.skip(n as int)[0]);
                    assert(all.take(n + 1) =~= all.take(n as int).push(all[n as int]));
                    let Dispatch { message, recepients, sender } = dispatch;
                    let key: u64 = message.replica_id.0;
                    let (place, found): (usize, bool) = self.instances.find(key);
                    if found {
                        let instance = self.instances.value_mut(place);
                        let ghost held = instance@;
                        instance.inbox.push_back(
                            ProtocolPacketData { data: message.buffer, recepients, sender },
                        );
                        assert(instance.inbox@.last()@ =~= all[n as int].packet);
                        assert(instance@ =~= (InstanceView {
                            inbox: held.inbox.push(all[n as int].packet),
                            ..held
                        }));
                        proof {
                            lemma_viewed_update(entries, place as int, *instance);
                        }
                    }
                    assert forall|k: int| 0 <= k < instances.len() implies #[trigger] viewed(
                        self.instances@,
                    )[k] == handed_out(instances, all.take(n + 1))[k] by {
                        lemma_meant_for_push(
                            all.take(n as int),
                            all[n as int],
                            instances[k].0,
                        );
                        assert(between[k] == handed_out(instances, all.take(n as int))[k]);
                        if found {
                            assert(k != place ==> entries[k].0 != entries[place as int].0);
                        } else {
                            assert(entries[k].0 != key);
                        }
                        assert(viewed(self.instances@)[k].1
                            =~= handed_out(instances, all.take(n + 1))[k].1);
                    }
                    assert(viewed(self.instances@) =~= handed_out(instances, all.take(n + 1)));
                }
                assert forall|x: int| 0 <= x < queue@.len() implies dispatch_views(queue@)[x]
                    == #[trigger] all.skip(n + 1)[x] by {
                    assert(dispatch_views(rest)[x + 1] == all.skip(n as int)[x + 1]);
                }
                assert(dispatch_views(queue@) =~= all.skip(n + 1));
                n = n + 1;
            }
            assert(all.take(n as int) =~= all);
            assert(dispatch_views(queue@) =~= Seq::<DispatchView>::empty());
            self.inbox = Some(queue);
        }
    }

    /// Whether the replica that somebody holds is there, and where.
    fn find(&self, replica: &Replica) -> (result: Option<usize>)
        ensures
            match result {
                Some(place) => {
                    &&& self@.knows(*replica)
                    &&& place < self.instances@.len()
                    &&& place == place_of(self@.instances, replica.id.0)
                    &&& self.instances@[place as int].0 == replica.id.0
                },
                None => !self@.knows(*replica),
            },
            self@.in_order(),
    {
        let _ = self.left.len();
        let (place, found): (usize, bool) = self.instances.find(replica.id.0);
        proof {
            lemma_same_keys(self.instances@, self@.instances, replica.id.0);
            lemma_same_keys(self.left@, self@.left, 0);
        }
        if found && self.instances.value(place).ticket == replica.ticket {
            Some(place)
        } else {
            None
        }
    }

    /// Adds a packet from a replica, if it is there.
    fn submit(&mut self, replica: &Replica, packet: ProtocolPacketData) -> (result: bool)
        ensures
            result == old(self)@.knows(*replica),
            final(self)@ == old(self)@.with_packet(*replica, packet@),
    {
        let ghost before = self@;
        let ghost entries = self.instances@;
        match self.find(replica) {
            None => false,
            Some(place) => {
                proof {
                    lemma_same_keys(entries, before.instances, replica.id.0);
                }
                let instance = self.instances.value_mut(place);
                let ghost held = instance@;
                instance.outbox.push_back(packet);
                assert(instance@ =~= (InstanceView { outbox: held.outbox.push(packet@), ..held }));
                proof {
                    lemma_viewed_update(entries, place as int, *instance);
                }
                assert(self@.instances =~= with_value(before.instances, replica.id.0, instance@));
                true
            },
        }
    }

    /// Takes the first packet for a replica that somebody holds.
    fn receive(&mut self, replica: &Replica) -> (result: Option<ProtocolPacketData>)
        ensures
            match old(self)@.inbox_of(*replica) {
                None => result is None && final(self)@ == old(self)@,
                Some(inbox) => if inbox.len() == 0 {
                    result is None && final(self)@ == old(self)@
                } else {
                    &&& result matches Some(packet)
                    &&& packet@ == inbox[0]
                    &&& final(self)@ == old(self)@.with_inbox(*replica, inbox.skip(1))
                },
            },
    {
        let ghost before = self@;
        match self.find(replica) {
            Some(place) => {
                let ghost entries = self.instances@;
                proof {
                    lemma_same_keys(entries, before.instances, replica.id.0);
                }
                let instance = self.instances.value_mut(place);
                let ghost held = instance@;
                let result = instance.inbox.pop_front();
                proof {
                    if held.inbox.len() > 0 {
                        assert(instance@.inbox =~= held.inbox.skip(1));
                        assert(instance@ =~= (InstanceView { inbox: held.inbox.skip(1), ..held }));
                    } else {
                        assert(instance@ =~= held);
                    }
                    lemma_viewed_update(entries, place as int, *instance);
                }
                assert(self@.instances =~= with_value(before.instances, replica.id.0, instance@));
                assert(held.inbox.len() == 0 ==> self@.instances =~= before.instances);
                result
            },
            None => {
                let ghost entries = self.left@;
                proof {
                    lemma_same_keys(entries, before.left, replica.ticket);
                }
                let (place, found): (usize, bool) = self.left.find(replica.ticket);
                if !found {
                    return None;
                }
                let leftover = self.left.value_mut(place);
                let ghost held = leftover@;
                let result = leftover.inbox.pop_front();
                proof {
                    if held.len() > 0 {
                        assert(leftover@ =~= held.skip(1));
                    } else {
                        assert(leftover@ =~= held);
                    }
                    lemma_viewed_update(entries, place as int, *leftover);
                }
                assert(self@.left =~= with_value(before.left, replica.ticket, leftover@));
                assert(held.len() == 0 ==> self@.left =~= before.left);
                result
            },
        }
    }

    /// Adds a replica, held under a ticket.
    fn add(&mut self, id: ReplicaId, ticket: u64)
        ensures
            final(self)@ == old(self)@.with_replica(id, ticket),
    {
        let instance = ReplicaInstance::new(ticket);
        let known: usize = self.instances.len();
        proof {
            lemma_viewed(self.instances@, id.0, instance);
        }
        self.instances.insert(id.0, instance);
    }

    /// Takes a replica out, and says whether it was there. What waits for it is left to who
    /// holds it.
    fn remove(&mut self, id: ReplicaId) -> (result: bool)
        ensures
            result == has_key(old(self)@.instances, id.0),
            final(self)@ == old(self)@.without_replica(id),
    {
        let ghost before = self@;
        let ghost entries = self.instances@;
        let ghost leftovers = self.left@;
        let known: usize = self.instances.len();
        let others: usize = self.left.len();
        proof {
            lemma_same_keys(entries, viewed(entries), id.0);
        }
        match self.instances.remove(id.0) {
            Some(instance) => {
                let ReplicaInstance { ticket, outbox: _, inbox } = instance;
                let leftover = Leftover { inbox };
                proof {
                    lemma_viewed(entries, id.0, instance);
                    lemma_viewed(leftovers, ticket, leftover);
                    assert(value_of(before.instances, id.0) == Some(instance@));
                    assert(leftover@ == instance@.inbox);
                }
                self.left.insert(ticket, leftover);
                true
            },
            None => false,
        }
    }

    /// Takes out a replica that nobody holds any more, and what was left for it.
    fn forget(&mut self, replica: &Replica)
        ensures
            final(self)@ == old(self)@.without_holder(*replica),
    {
        self.remove(replica.id);
        let ghost leftovers = self.left@;
        let others: usize = self.left.len();
        proof {
            lemma_same_keys(leftovers, viewed(leftovers), replica.ticket);
        }
        match self.left.remove(replica.ticket) {
            Some(leftover) => {
                proof {
                    lemma_viewed(leftovers, replica.ticket, leftover);
                }
            },
            None => {},
        }
    }
}

/// Packets for a replica that somebody holds are there once they were put there, and the last
/// that were put there stay.
pub proof fn lemma_with_inbox(
    link: LinkView,
    replica: Replica,
    inbox: Seq<PacketDataView>,
    other: Seq<PacketDataView>,
)
    requires
        link.in_order(),
        link.inbox_of(replica) is Some,
    ensures
        link.with_inbox(replica, inbox).in_order(),
        link.with_inbox(replica, inbox).knows(replica) == link.knows(replica),
        link.with_inbox(replica, inbox).inbox_of(replica) == Some(inbox),
        link.with_inbox(replica, inbox).with_inbox(replica, other) == link.with_inbox(
            replica,
            other,
        ),
        link.with_inbox(replica, link.inbox_of(replica)->Some_0) == link,
{
    let after = link.with_inbox(replica, inbox);
    if link.knows(replica) {
        let key = replica.id.0;
        let instance = value_of(link.instances, key)->Some_0;
        let changed = InstanceView { inbox, ..instance };
        lemma_place(link.instances, key);
        law_with_value(link.instances, key, changed, key);
        lemma_only_place(after.instances, key, place_of(link.instances, key));
        assert(after.with_inbox(replica, other).instances =~= link.with_inbox(
            replica,
            other,
        ).instances);
        assert(link.with_inbox(replica, instance.inbox).instances =~= link.instances);
    } else {
        let key = replica.ticket;
        lemma_place(link.left, key);
        law_with_value(link.left, key, inbox, key);
        lemma_only_place(after.left, key, place_of(link.left, key));
        assert(after.with_inbox(replica, other).left =~= link.with_inbox(replica, other).left);
        assert(link.with_inbox(replica, link.inbox_of(replica)->Some_0).left =~= link.left);
    }
}

/// Whether all tickets that are held are below a limit.
pub open spec fn tickets_below(link: LinkView, limit: u64) -> bool {
    &&& forall|i: int| 0 <= i < link.instances.len() ==> (#[trigger] link.instances[i]).1.ticket
        < limit
    &&& forall|i: int| 0 <= i < link.left.len() ==> (#[trigger] link.left[i]).0 < limit
}

/// Until tickets start over, a new replica gets one that nobody holds: all that are held are
/// below the next, whatever comes, goes and is moved.
pub proof fn law_tickets_are_fresh(link: LinkView, id: ReplicaId, ticket: u64, replica: Replica)
    requires
        link.in_order(),
        tickets_below(link, ticket),
        ticket < u64::MAX,
    ensures
        tickets_below(link.with_replica(id, ticket), (ticket + 1) as u64),
        tickets_below(link.without_replica(id), ticket),
        tickets_below(link.without_holder(replica), ticket),
        tickets_below(link.after_gathering(), ticket),
        tickets_below(link.after_handing_out(), ticket),
        link.knows(replica) ==> replica.ticket != ticket,
{
    let fresh = InstanceView::fresh(ticket);
    lemma_place(link.instances, id.0);
    law_with_value(link.instances, id.0, fresh, id.0);
    lemma_taken_out_below(link, id, ticket);
    lemma_taken_out_below(link, replica.id, ticket);
    let rest = link.without_replica(replica.id);
    lemma_place(rest.left, replica.ticket);
    if link.knows(replica) {
        lemma_place(link.instances, replica.id.0);
    }
    if let Some(queue) = link.outbox {
        assert forall|i: int| 0 <= i < link.instances.len() implies (
        #[trigger] link.after_gathering().instances[i]).1.ticket < ticket by {
            assert(link.instances[i].1.ticket < ticket);
        }
    }
    if let Some(queue) = link.inbox {
        assert forall|i: int| 0 <= i < link.instances.len() implies (
        #[trigger] link.after_handing_out().instances[i]).1.ticket < ticket by {
            assert(link.instances[i].1.ticket < ticket);
        }
    }
}

proof fn lemma_taken_out_below(link: LinkView, id: ReplicaId, ticket: u64)
    requires
        link.in_order(),
        tickets_below(link, ticket),
    ensures
        link.without_replica(id).in_order(),
        tickets_below(link.without_replica(id), ticket),
{
    if let Some(instance) = value_of(link.instances, id.0) {
        lemma_place(link.instances, id.0);
        lemma_place(link.left, instance.ticket);
        law_without_key(link.instances, id.0, id.0);
        law_with_value(link.left, instance.ticket, instance.inbox, instance.ticket);
    }
}

/// Who holds a replica still gets what waits for it once it was taken out, and can send nothing
/// any more, whatever replica takes its number.
pub proof fn law_taken_out_still_reads(link: LinkView, replica: Replica, ticket: u64)
    requires
        link.in_order(),
        link.knows(replica),
        ticket != replica.ticket,
    ensures
        ({
            let gone = link.without_replica(replica.id);
            let reused = gone.with_replica(replica.id, ticket);
            &&& !gone.knows(replica)
            &&& gone.inbox_of(replica) == link.inbox_of(replica)
            &&& !reused.knows(replica)
            &&& reused.inbox_of(replica) == link.inbox_of(replica)
        }),
{
    let instance = value_of(link.instances, replica.id.0)->Some_0;
    let gone = link.without_replica(replica.id);
    law_without_key(link.instances, replica.id.0, replica.id.0);
    law_with_value(link.left, replica.ticket, instance.inbox, replica.ticket);
    law_with_value(gone.instances, replica.id.0, InstanceView::fresh(ticket), replica.id.0);
}

proof fn lemma_meant_for_push(
    dispatches: Seq<DispatchView>,
    dispatch: DispatchView,
    replica_id: u64,
)
    ensures
        meant_for(dispatches.push(dispatch), replica_id) == (if dispatch.replica_id.0
            == replica_id {
            meant_for(dispatches, replica_id).push(dispatch.packet)
        } else {
            meant_for(dispatches, replica_id)
        }),
{
    assert(dispatches.push(dispatch).drop_last() =~= dispatches);
}

/// Packets for a replica among two runs of messages.
proof fn lemma_meant_for_both(first: Seq<DispatchView>, second: Seq<DispatchView>, replica_id: u64)
    ensures
        meant_for(first + second, replica_id) == meant_for(first, replica_id) + meant_for(
            second,
            replica_id,
        ),
    decreases second.len(),
{
    if second.len() == 0 {
        assert(first + second =~= first);
        assert(meant_for(first, replica_id) + Seq::<PacketDataView>::empty() =~= meant_for(
            first,
            replica_id,
        ));
    } else {
        lemma_meant_for_both(first, second.drop_last(), replica_id);
        assert((first + second).drop_last() =~= first + second.drop_last());
        assert(meant_for(first + second, replica_id) =~= meant_for(first, replica_id)
            + meant_for(second, replica_id));
    }
}

/// All packets of a replica are for the replica with its number, and none for another.
proof fn lemma_meant_for_numbered(sender: u64, packets: Seq<PacketDataView>, replica_id: u64)
    ensures
        meant_for(numbered(sender, packets), replica_id) == (if sender == replica_id {
            packets
        } else {
            Seq::empty()
        }),
    decreases packets.len(),
{
    if packets.len() > 0 {
        lemma_meant_for_numbered(sender, packets.drop_last(), replica_id);
        assert(numbered(sender, packets).drop_last() =~= numbered(sender, packets.drop_last()));
        assert(packets.drop_last().push(packets.last()) =~= packets);
    } else {
        assert(packets =~= Seq::<PacketDataView>::empty());
    }
}

/// What a replica has to say on one machine reaches the replica with the same number on
/// another, all of it and in order, if peers carry the messages over.
pub proof fn law_packets_reach_their_replica(instances: Seq<(u64, InstanceView)>, replica_id: u64)
    requires
        keys_ascend(instances),
    ensures
        meant_for(gathered(instances), replica_id) == (match value_of(instances, replica_id) {
            Some(instance) => instance.outbox,
            None => Seq::empty(),
        }),
    decreases instances.len(),
{
    if instances.len() > 0 {
        let rest = instances.drop_last();
        let last = instances.last();
        law_packets_reach_their_replica(rest, replica_id);
        lemma_meant_for_both(
            gathered(rest),
            numbered(last.0, last.1.outbox),
            replica_id,
        );
        lemma_meant_for_numbered(last.0, last.1.outbox, replica_id);
        lemma_last_value(instances, replica_id);
        if last.0 == replica_id {
            assert(Seq::<PacketDataView>::empty() + last.1.outbox =~= last.1.outbox);
        } else {
            let before = meant_for(gathered(rest), replica_id);
            assert(before + Seq::<PacketDataView>::empty() =~= before);
        }
    }
}

proof fn lemma_last_value(instances: Seq<(u64, InstanceView)>, replica_id: u64)
    requires
        keys_ascend(instances),
        instances.len() > 0,
    ensures
        instances.last().0 == replica_id ==> value_of(instances, replica_id) == Some(
            instances.last().1,
        ) && value_of(instances.drop_last(), replica_id) is None,
        instances.last().0 != replica_id ==> value_of(instances, replica_id) == value_of(
            instances.drop_last(),
            replica_id,
        ),
        keys_ascend(instances.drop_last()),
{
    let rest = instances.drop_last();
    let last = instances.len() - 1;
    assert(keys_ascend(rest));
    if instances[last].0 == replica_id {
        lemma_only_place(instances, replica_id, last);
        if has_key(rest, replica_id) {
            let i = choose|i: int| 0 <= i < rest.len() && (#[trigger] rest[i]).0 == replica_id;
            assert(instances[i].0 < instances[last].0);
        }
    } else {
        if has_key(rest, replica_id) {
            lemma_place(rest, replica_id);
            let at = place_of(rest, replica_id);
            assert(instances[at].0 == replica_id);
            lemma_only_place(instances, replica_id, at);
        }
        if has_key(instances, replica_id) {
            lemma_place(instances, replica_id);
            let at = place_of(instances, replica_id);
            assert(at != last);
            assert(rest[at].0 == replica_id);
            lemma_only_place(rest, replica_id, at);
        }
    }
}

/// Replicas that talk through the channels of a peer.
pub struct ReplicaSet {
    change: ReplicaLink,
    rpc: ReplicaLink,
    killed: VecDeque<Replica>,
    tickets: u64,
}

/// What a [`ReplicaSet`] holds.
#[verifier::ext_equal]
pub struct ReplicaSetView {
    /// The way of changes.
    pub change: LinkView,
    /// The way of calls.
    pub rpc: LinkView,
    /// Replicas that nobody holds any more.
    pub killed: Seq<Replica>,
    /// The ticket for the next replica. After the last the first comes again.
    pub tickets: u64,
}

impl View for ReplicaSet {
    type V = ReplicaSetView;

    closed spec fn view(&self) -> ReplicaSetView {
        ReplicaSetView {
            change: self.change@,
            rpc: self.rpc@,
            killed: self.killed@,
            tickets: self.tickets,
        }
    }
}

/// The way without replicas that nobody holds any more.
pub open spec fn without_killed(link: LinkView, killed: Seq<Replica>) -> LinkView
    decreases killed.len(),
{
    if killed.len() == 0 {
        link
    } else {
        without_killed(link, killed.drop_last()).without_holder(killed.last())
    }
}

impl ReplicaSetView {
    /// Whether there is a replica with that number.
    pub open spec fn has(self, id: ReplicaId) -> bool {
        has_key(self.change.instances, id.0)
    }

    /// A set without replicas that is bound to no channel.
    pub open spec fn empty() -> Self {
        ReplicaSetView {
            change: LinkView::unbound(),
            rpc: LinkView::unbound(),
            killed: Seq::empty(),
            tickets: 0,
        }
    }

    /// What who creates the next replica holds.
    pub open spec fn next_replica(self, id: ReplicaId) -> Replica {
        Replica { id, ticket: self.tickets }
    }

    /// With one more replica.
    pub open spec fn with_replica(self, id: ReplicaId) -> Self {
        ReplicaSetView {
            change: self.change.with_replica(id, self.tickets),
            rpc: self.rpc.with_replica(id, self.tickets),
            tickets: if self.tickets == u64::MAX {
                0
            } else {
                (self.tickets + 1) as u64
            },
            ..self
        }
    }

    /// Without a replica.
    pub open spec fn without_replica(self, id: ReplicaId) -> Self {
        ReplicaSetView {
            change: self.change.without_replica(id),
            rpc: self.rpc.without_replica(id),
            ..self
        }
    }

    /// Without the replicas that nobody holds any more.
    pub open spec fn after_burial(self) -> Self {
        ReplicaSetView {
            change: without_killed(self.change, self.killed),
            rpc: without_killed(self.rpc, self.killed),
            killed: Seq::empty(),
            ..self
        }
    }

    /// Once everything on its way went a step further.
    pub open spec fn maintained(self) -> Self {
        let living = self.after_burial();
        ReplicaSetView {
            change: living.change.after_gathering().after_handing_out(),
            rpc: living.rpc.after_gathering().after_handing_out(),
            ..living
        }
    }
}

/// Whether a peer has an end of a channel for messages of a type.
pub open spec fn has_end<E>(
    ends: Seq<(u64, crate::peer::Endpoint<E>)>,
    channel_id: ChannelId,
    message_type: u64,
) -> bool {
    found_end(ends, channel_id, message_type, Error::UnexpectedEof) is Ok
}

/// A way that is bound to the ends of a channel that a peer has.
pub open spec fn bound_to(
    link: LinkView,
    writes: bool,
    reads: bool,
) -> LinkView {
    LinkView {
        outbox: if writes {
            Some(Seq::empty())
        } else {
            None
        },
        inbox: if reads {
            Some(Seq::empty())
        } else {
            None
        },
        ..link
    }
}

impl ReplicaSet {
    /// A set without replicas that is bound to no channel.
    pub fn new() -> (result: Self)
        ensures
            result@ == ReplicaSetView::empty(),
    {
        ReplicaSet {
            change: ReplicaLink::new(),
            rpc: ReplicaLink::new(),
            killed: VecDeque::new(),
            tickets: 0,
        }
    }

    /// Adds a replica, unless there is one with that number.
    pub fn create(&mut self, id: ReplicaId) -> (result: Result<Replica, Error>)
        ensures
            old(self)@.has(id) ==> {
                &&& failure(result) == Some(Error::ReplicaExists(id.0))
                &&& final(self)@ == old(self)@
            },
            !old(self)@.has(id) ==> {
                &&& result == Ok::<Replica, Error>(old(self)@.next_replica(id))
                &&& final(self)@ == old(self)@.with_replica(id)
            },
    {
        if self.has(&id) {
            return Err(Error::ReplicaExists(id.0));
        }
        let ticket: u64 = self.tickets;
        self.change.add(id, ticket);
        self.rpc.add(id, ticket);
        self.tickets = if ticket == u64::MAX {
            0
        } else {
            ticket + 1
        };
        Ok(Replica { id, ticket })
    }

    /// Takes a replica out, and says whether it was there. Who holds it still gets what waits
    /// for it.
    pub fn destroy(&mut self, id: &ReplicaId) -> (result: bool)
        ensures
            result == old(self)@.has(*id),
            final(self)@ == old(self)@.without_replica(*id),
    {
        let result = self.change.remove(*id);
        self.rpc.remove(*id);
        result
    }

    /// Whether there is a replica with that number. The replicas are in the order of their
    /// numbers.
    pub fn has(&self, id: &ReplicaId) -> (result: bool)
        ensures
            result == self@.has(*id),
            self@.change.in_order(),
            self@.rpc.in_order(),
    {
        let _ = self.change.instances.len();
        let _ = self.change.left.len();
        let _ = self.rpc.instances.len();
        let _ = self.rpc.left.len();
        proof {
            lemma_same_keys(self.change.instances@, viewed(self.change.instances@), id.0);
            lemma_same_keys(self.change.left@, viewed(self.change.left@), id.0);
            lemma_same_keys(self.rpc.instances@, viewed(self.rpc.instances@), id.0);
            lemma_same_keys(self.rpc.left@, viewed(self.rpc.left@), id.0);
        }
        self.change.instances.contains_key(id.0)
    }

    /// The numbers of all replicas, in their order.
    pub fn iter(&self) -> (result: Vec<ReplicaId>)
        ensures
            result@.len() == self@.change.instances.len(),
            forall|i: int|
                0 <= i < result@.len() ==> (#[trigger] result@[i]).0
                    == self@.change.instances[i].0,
    {
        let mut result: Vec<ReplicaId> = Vec::new();
        let total: usize = self.change.instances.len();
        let mut i: usize = 0;
        while i < total
            invariant
                i <= total,
                total == self.change.instances@.len(),
                result@.len() == i,
                forall|k: int|
                    0 <= k < i ==> (#[trigger] result@[k]).0 == self.change.instances@[k].0,
            decreases total - i,
        {
            result.push(ReplicaId(self.change.instances.key(i)));
            i = i + 1;
        }
        result
    }

    /// Takes note that nobody holds a replica any more.
    pub fn kill(&mut self, replica: Replica)
        ensures
            final(self)@ == (ReplicaSetView {
                killed: old(self)@.killed.push(replica),
                ..old(self)@
            }),
    {
        self.killed.push_back(replica);
    }

    /// Takes out the replicas that nobody holds any more.
    fn bury(&mut self)
        ensures
            final(self)@ == old(self)@.after_burial(),
    {
        let ghost before = self@;
        let ghost killed = before.killed;
        let total: usize = self.killed.len();
        let mut i: usize = 0;
        assert(killed.skip(0) =~= killed);
        assert(killed.take(0) =~= Seq::<Replica>::empty());
        while i < total
            invariant
                before == old(self)@,
                killed == before.killed,
                i <= total,
                total == killed.len(),
                self@ == (ReplicaSetView {
                    change: without_killed(before.change, killed.take(i as int)),
                    rpc: without_killed(before.rpc, killed.take(i as int)),
                    killed: killed.skip(i as int),
                    ..before
                }),
            decreases total - i,
        {
            assert(self.killed@ == killed.skip(i as int));
            assert(killed.take(i + 1).drop_last() =~= killed.take(i as int));
            if let Some(replica) = self.killed.pop_front() {
                assert(self.killed@ =~= killed.skip(i + 1));
                self.change.forget(&replica);
                self.rpc.forget(&replica);
            }
            i = i + 1;
            assert(self@ =~= (ReplicaSetView {
                change: without_killed(before.change, killed.take(i as int)),
                rpc: without_killed(before.rpc, killed.take(i as int)),
                killed: killed.skip(i as int),
                ..before
            }));
        }
        assert(killed.take(i as int) =~= killed);
        assert(killed.skip(i as int) =~= Seq::<Replica>::empty());
    }

    /// Takes out replicas that are gone, brings what replicas have to say to the peer, and what
    /// the peer read to the replicas.
    pub fn maintain(&mut self)
        ensures
            final(self)@ == old(self)@.maintained(),
    {
        self.bury();
        self.change.gather();
        self.change.hand_out();
        self.rpc.gather();
        self.rpc.hand_out();
    }

    /// Binds the ways to the channels of a peer, as far as channels are named. A way whose
    /// channel the peer has no end of is left without. Gives back what was on the ways that were
    /// bound anew, to be taken care of where they were bound before.
    pub fn bind_peer<R, S, D>(
        &mut self,
        peer: &Peer<R, S, D>,
        change_channel_id: Option<ChannelId>,
        rpc_channel_id: Option<ChannelId>,
        message_type: u64,
    ) -> (result: (Unbound, Unbound))
        ensures
            result.0@ == (if change_channel_id is Some {
                UnboundView::of(old(self)@.change)
            } else {
                UnboundView::nothing()
            }),
            result.1@ == (if rpc_channel_id is Some {
                UnboundView::of(old(self)@.rpc)
            } else {
                UnboundView::nothing()
            }),
            final(self)@ == (ReplicaSetView {
                change: match change_channel_id {
                    Some(channel_id) => bound_to(
                        old(self)@.change,
                        has_end(peer@.senders, channel_id, message_type),
                        has_end(peer@.receivers, channel_id, message_type),
                    ),
                    None => old(self)@.change,
                },
                rpc: match rpc_channel_id {
                    Some(channel_id) => bound_to(
                        old(self)@.rpc,
                        has_end(peer@.senders, channel_id, message_type),
                        has_end(peer@.receivers, channel_id, message_type),
                    ),
                    None => old(self)@.rpc,
                },
                ..old(self)@
            }),
    {
        let change = match change_channel_id {
            Some(channel_id) => {
                let writes: bool = peer.sender(channel_id, message_type).is_ok();
                let reads: bool = peer.receiver(channel_id, message_type).is_ok();
                self.change.bind(writes, reads)
            },
            None => Unbound::nothing(),
        };
        let rpc = match rpc_channel_id {
            Some(channel_id) => {
                let writes: bool = peer.sender(channel_id, message_type).is_ok();
                let reads: bool = peer.receiver(channel_id, message_type).is_ok();
                self.rpc.bind(writes, reads)
            },
            None => Unbound::nothing(),
        };
        (change, rpc)
    }

    /// Binds the way of changes, both ways, and gives back what was on it.
    pub fn bind_change(&mut self) -> (result: Unbound)
        ensures
            result@ == UnboundView::of(old(self)@.change),
            final(self)@ == (ReplicaSetView {
                change: bound_to(old(self)@.change, true, true),
                ..old(self)@
            }),
    {
        self.change.bind(true, true)
    }

    /// Binds the way of calls, both ways, and gives back what was on it.
    pub fn bind_rpc(&mut self) -> (result: Unbound)
        ensures
            result@ == UnboundView::of(old(self)@.rpc),
            final(self)@ == (ReplicaSetView {
                rpc: bound_to(old(self)@.rpc, true, true),
                ..old(self)@
            }),
    {
        self.rpc.bind(true, true)
    }

    /// Has changes written, and gives back those that were to be written before.
    pub fn bind_change_sender(&mut self) -> (result: VecDeque<Dispatch<ReplicationBuffer>>)
        ensures
            dispatch_views(result@) == queued(old(self)@.change.outbox),
            final(self)@ == (ReplicaSetView {
                change: LinkView { outbox: Some(Seq::empty()), ..old(self)@.change },
                ..old(self)@
            }),
    {
        self.change.bind_outbox(true)
    }

    /// Has changes read, and gives back those that were read before.
    pub fn bind_change_receiver(&mut self) -> (result: VecDeque<Dispatch<ReplicationBuffer>>)
        ensures
            dispatch_views(result@) == queued(old(self)@.change.inbox),
            final(self)@ == (ReplicaSetView {
                change: LinkView { inbox: Some(Seq::empty()), ..old(self)@.change },
                ..old(self)@
            }),
    {
        self.change.bind_inbox(true)
    }

    /// Has calls written, and gives back those that were to be written before.
    pub fn bind_rpc_sender(&mut self) -> (result: VecDeque<Dispatch<ReplicationBuffer>>)
        ensures
            dispatch_views(result@) == queued(old(self)@.rpc.outbox),
            final(self)@ == (ReplicaSetView {
                rpc: LinkView { outbox: Some(Seq::empty()), ..old(self)@.rpc },
                ..old(self)@
            }),
    {
        self.rpc.bind_outbox(true)
    }

    /// Has calls read, and gives back those that were read before.
    pub fn bind_rpc_receiver(&mut self) -> (result: VecDeque<Dispatch<ReplicationBuffer>>)
        ensures
            dispatch_views(result@) == queued(old(self)@.rpc.inbox),
            final(self)@ == (ReplicaSetView {
                rpc: LinkView { inbox: Some(Seq::empty()), ..old(self)@.rpc },
                ..old(self)@
            }),
    {
        self.rpc.bind_inbox(true)
    }

    /// Binds the ways to nothing, and gives back what was on them.
    pub fn unbind(&mut self) -> (result: (Unbound, Unbound))
        ensures
            result.0@ == UnboundView::of(old(self)@.change),
            result.1@ == UnboundView::of(old(self)@.rpc),
            final(self)@ == (ReplicaSetView {
                change: bound_to(old(self)@.change, false, false),
                rpc: bound_to(old(self)@.rpc, false, false),
                ..old(self)@
            }),
    {
        let change = self.change.bind(false, false);
        let rpc = self.rpc.bind(false, false);
        (change, rpc)
    }

    /// Whether changes are written.
    pub fn writes_changes(&self) -> (result: bool)
        ensures
            result == (self@.change.outbox is Some),
    {
        self.change.outbox.is_some()
    }

    /// Whether changes are read.
    pub fn reads_changes(&self) -> (result: bool)
        ensures
            result == (self@.change.inbox is Some),
    {
        self.change.inbox.is_some()
    }

    /// Takes the first message with changes for the peer to write.
    pub fn take_change(&mut self) -> (result: Option<Dispatch<ReplicationBuffer>>)
        ensures
            match old(self)@.change.outbox {
                None => result is None && final(self)@ == old(self)@,
                Some(queue) => if queue.len() == 0 {
                    result is None && final(self)@ == old(self)@
                } else {
                    &&& result matches Some(dispatch)
                    &&& dispatch@ == queue[0]
                    &&& final(self)@ == (ReplicaSetView {
                        change: LinkView { outbox: Some(queue.skip(1)), ..old(self)@.change },
                        ..old(self)@
                    })
                },
            },
    {
        self.change.take()
    }

    /// Takes the first message with a call for the peer to write.
    pub fn take_rpc(&mut self) -> (result: Option<Dispatch<ReplicationBuffer>>)
        ensures
            match old(self)@.rpc.outbox {
                None => result is None && final(self)@ == old(self)@,
                Some(queue) => if queue.len() == 0 {
                    result is None && final(self)@ == old(self)@
                } else {
                    &&& result matches Some(dispatch)
                    &&& dispatch@ == queue[0]
                    &&& final(self)@ == (ReplicaSetView {
                        rpc: LinkView { outbox: Some(queue.skip(1)), ..old(self)@.rpc },
                        ..old(self)@
                    })
                },
            },
    {
        self.rpc.take()
    }

    /// Adds a message with changes that the peer read, if there is a channel for it.
    pub fn push_change(&mut self, dispatch: Dispatch<ReplicationBuffer>) -> (result: bool)
        ensures
            result == (old(self)@.change.inbox is Some),
            final(self)@ == (match old(self)@.change.inbox {
                None => old(self)@,
                Some(queue) => ReplicaSetView {
                    change: LinkView {
                        inbox: Some(queue.push(dispatch@)),
                        ..old(self)@.change
                    },
                    ..old(self)@
                },
            }),
    {
        self.change.put(dispatch)
    }

    /// Adds a message with a call that the peer read, if there is a channel for it.
    pub fn push_rpc(&mut self, dispatch: Dispatch<ReplicationBuffer>) -> (result: bool)
        ensures
            result == (old(self)@.rpc.inbox is Some),
            final(self)@ == (match old(self)@.rpc.inbox {
                None => old(self)@,
                Some(queue) => ReplicaSetView {
                    rpc: LinkView { inbox: Some(queue.push(dispatch@)), ..old(self)@.rpc },
                    ..old(self)@
                },
            }),
    {
        self.rpc.put(dispatch)
    }
}

impl Default for ReplicaSet {
    fn default() -> (result: Self)
        ensures
            result@ == ReplicaSetView::empty(),
    {
        ReplicaSet::new()
    }
}

/// One of several machines' share in a value, as somebody holds it.
#[derive(Debug)]
pub struct Replica {
    pub id: ReplicaId,
    /// Tells who holds it from others who held a replica with that number.
    pub ticket: u64,
}

impl Replica {
    pub fn id(&self) -> (result: ReplicaId)
        ensures
            result == self.id,
    {
        self.id
    }

    /// To write changes.
    pub fn collect_changes(&self) -> (result: ReplicaCollectChanges)
        ensures
            result.is_fresh(),
    {
        ReplicaCollectChanges::new()
    }

    /// Has changes sent, if there are any and the set still knows the replica. Says whether
    /// they were.
    pub fn send_changes(&self, set: &mut ReplicaSet, changes: ReplicaCollectChanges) -> (result:
        bool)
        ensures
            result == (changes.buffer@.past.len() != 0 && old(set)@.change.knows(*self)),
            final(set)@ == (if changes.buffer@.past.len() != 0 {
                ReplicaSetView {
                    change: old(set)@.change.with_packet(*self, changes.packet()),
                    ..old(set)@
                }
            } else {
                old(set)@
            }),
    {
        match changes.finish() {
            Some(packet) => set.change.submit(self, packet),
            None => false,
        }
    }

    /// Takes the first changes for the replica.
    pub fn apply_changes(&self, set: &mut ReplicaSet) -> (result: Option<ReplicaApplyChanges>)
        ensures
            match old(set)@.change.inbox_of(*self) {
                None => result is None && final(set)@ == old(set)@,
                Some(inbox) => if inbox.len() == 0 {
                    result is None && final(set)@ == old(set)@
                } else {
                    &&& result matches Some(changes)
                    &&& changes.buffer@.past == Seq::<u8>::empty()
                    &&& changes.buffer@.rest == inbox[0].data
                    &&& final(set)@ == (ReplicaSetView {
                        change: old(set)@.change.with_inbox(*self, inbox.skip(1)),
                        ..old(set)@
                    })
                },
            },
    {
        match set.change.receive(self) {
            Some(packet) => Some(ReplicaApplyChanges::new(packet.data)),
            None => None,
        }
    }

    /// To send calls.
    pub fn rpc_sender(&self) -> (result: ReplicaRpcSender)
        ensures
            result.replica == *self,
            result.recepients@ == Seq::<EngineId>::empty(),
    {
        ReplicaRpcSender {
            replica: Replica { id: self.id, ticket: self.ticket },
            recepients: Vec::new(),
        }
    }

    /// Takes the first call for the replica, and reads its head.
    pub fn rpc_receive(&self, set: &mut ReplicaSet) -> (result: Option<
        Result<RpcPartialDecoder, Error>,
    >)
        ensures
            match old(set)@.rpc.inbox_of(*self) {
                None => result is None && final(set)@ == old(set)@,
                Some(inbox) => if inbox.len() == 0 {
                    result is None && final(set)@ == old(set)@
                } else {
                    &&& final(set)@ == (ReplicaSetView {
                        rpc: old(set)@.rpc.with_inbox(*self, inbox.skip(1)),
                        ..old(set)@
                    })
                    &&& result matches Some(decoded)
                    &&& is_head_of(decoded, inbox[0].data)
                },
            },
    {
        match set.rpc.receive(self) {
            Some(packet) => Some(RpcPartialDecoder::new(packet.data)),
            None => None,
        }
    }
}

/// Whether this is what reading the head of a call gives.
pub open spec fn is_head_of(decoded: Result<RpcPartialDecoder, Error>, bytes: Seq<u8>) -> bool {
    match decoded {
        Ok(decoder) => {
            &&& HeadView::parse(None, bytes).result == Ok::<HeadView, Error>(decoder.head())
            &&& decoder.rest() == bytes.skip(HeadView::parse(None, bytes).consumed as int)
        },
        Err(error) => HeadView::parse(None, bytes).result == Err::<HeadView, Error>(error),
    }
}

/// Sends calls of a replica.
pub struct ReplicaRpcSender {
    pub replica: Replica,
    pub recepients: Vec<EngineId>,
}

/// The same machines once more.
fn copied_ids(ids: &Vec<EngineId>) -> (result: Vec<EngineId>)
    ensures
        result@ == ids@,
{
    let mut result: Vec<EngineId> = Vec::new();
    let mut i: usize = 0;
    while i < ids.len()
        invariant
            i <= ids@.len(),
            result@ == ids@.take(i as int),
        decreases ids@.len() - i,
    {
        result.push(ids[i]);
        assert(ids@.take(i + 1) =~= ids@.take(i as int).push(ids@[i as int]));
        i = i + 1;
    }
    assert(ids@.take(i as int) =~= ids@);
    result
}

impl ReplicaRpcSender {
    /// Names one more machine that is to get calls.
    pub fn recepient(self, engine_id: EngineId) -> (result: Self)
        ensures
            result.replica == self.replica,
            result.recepients@ == self.recepients@.push(engine_id),
    {
        let mut this = self;
        this.recepients.push(engine_id);
        this
    }

    /// Names more machines that are to get calls.
    pub fn recepients(self, engine_ids: Vec<EngineId>) -> (result: Self)
        ensures
            result.replica == self.replica,
            result.recepients@ == self.recepients@ + engine_ids@,
    {
        let mut this = self;
        let mut engine_ids = engine_ids;
        this.recepients.append(&mut engine_ids);
        this
    }

    /// Sends a call.
    pub fn send<Output: Codec, Input: Codec, const TYPE_HASH: u64>(
        &self,
        set: &mut ReplicaSet,
        rpc: Rpc<Output, Input, TYPE_HASH>,
    ) -> (result: Result<(), Error>)
        ensures
            match <Rpc<Output, Input, TYPE_HASH> as Codec>::emit(rpc).error {
                Some(error) => failure(result) == Some(error) && final(set)@ == old(set)@,
                None => if !old(set)@.rpc.knows(self.replica) {
                    &&& failure(result) == Some(Error::NoReplica(self.replica.id.0))
                    &&& final(set)@ == old(set)@
                } else {
                    &&& result is Ok
                    &&& final(set)@ == (ReplicaSetView {
                        rpc: old(set)@.rpc.with_packet(
                            self.replica,
                            PacketDataView {
                                data: <Rpc<Output, Input, TYPE_HASH> as Codec>::emit(rpc).bytes,
                                recepients: self.recepients@,
                                sender: None,
                            },
                        ),
                        ..old(set)@
                    })
                },
            },
    {
        let ghost content = <Rpc<Output, Input, TYPE_HASH> as Codec>::emit(rpc).bytes;
        let mut buffer = Buffer::new(Vec::new());
        match rpc.encode(&mut buffer) {
            Err(error) => Err(error),
            Ok(_) => {
                assert(buffer@.bytes() =~= content);
                let packet = ProtocolPacketData {
                    data: buffer.into_inner(),
                    recepients: copied_ids(&self.recepients),
                    sender: None,
                };
                assert(packet@ =~= (PacketDataView {
                    data: content,
                    recepients: self.recepients@,
                    sender: None,
                }));
                if set.rpc.submit(&self.replica, packet) {
                    Ok(())
                } else {
                    Err(Error::NoReplica(self.replica.id.0))
                }
            },
        }
    }
}

/// Changes that are being written.
pub struct ReplicaCollectChanges {
    pub buffer: Buffer,
    pub recepients: Vec<EngineId>,
}

impl ReplicaCollectChanges {
    /// Whether nothing was written yet.
    pub open spec fn is_fresh(self) -> bool {
        self.buffer@.bytes().len() == 0 && self.recepients@.len() == 0
    }

    /// The packet that the changes make.
    pub open spec fn packet(self) -> PacketDataView {
        PacketDataView {
            data: self.buffer@.bytes(),
            recepients: self.recepients@,
            sender: None,
        }
    }

    pub fn new() -> (result: Self)
        ensures
            result.is_fresh(),
    {
        ReplicaCollectChanges { buffer: Buffer::new(Vec::new()), recepients: Vec::new() }
    }

    pub fn size(&self) -> (result: usize)
        ensures
            result == self.buffer@.bytes().len(),
    {
        self.buffer.get_ref().len()
    }

    /// Names one more machine that is to get the changes.
    pub fn recepient(self, engine_id: EngineId) -> (result: Self)
        ensures
            result.buffer@ == self.buffer@,
            result.recepients@ == self.recepients@.push(engine_id),
    {
        let mut this = self;
        this.recepients.push(engine_id);
        this
    }

    /// Names more machines that are to get the changes.
    pub fn recepients(self, engine_ids: Vec<EngineId>) -> (result: Self)
        ensures
            result.buffer@ == self.buffer@,
            result.recepients@ == self.recepients@ + engine_ids@,
    {
        let mut this = self;
        let mut engine_ids = engine_ids;
        this.recepients.append(&mut engine_ids);
        this
    }

    /// To write values at the cursor.
    pub fn scope(&mut self) -> (result: ReplicaCollectChangesScope<'_>)
        ensures
            result.wf(),
            result.position == old(self).buffer@.past.len(),
            *result.buffer == old(self).buffer,
            final(self).buffer == *final(result.buffer),
            final(self).recepients == old(self).recepients,
    {
        ReplicaCollectChangesScope::new(&mut self.buffer)
    }

    /// The packet to send, unless the cursor is back where it started.
    pub fn finish(self) -> (result: Option<ProtocolPacketData>)
        ensures
            match result {
                Some(packet) => self.buffer@.past.len() != 0 && packet@ == self.packet(),
                None => self.buffer@.past.len() == 0,
            },
    {
        let ghost before = self;
        if self.buffer.position() == 0 {
            None
        } else {
            let packet = ProtocolPacketData {
                data: self.buffer.into_inner(),
                recepients: self.recepients,
                sender: None,
            };
            assert(packet@ =~= before.packet());
            Some(packet)
        }
    }
}

/// Changes that are being read.
pub struct ReplicaApplyChanges {
    pub buffer: Buffer,
}

impl ReplicaApplyChanges {
    pub fn new(data: Vec<u8>) -> (result: Self)
        ensures
            result.buffer@.past == Seq::<u8>::empty(),
            result.buffer@.rest == data@,
    {
        let result = ReplicaApplyChanges { buffer: Buffer::new(data) };
        assert(result.buffer@.rest =~= data@);
        result
    }

    pub fn size(&self) -> (result: usize)
        ensures
            result == self.buffer@.bytes().len(),
    {
        self.buffer.get_ref().len()
    }

    /// To read values from the cursor on.
    pub fn scope(&mut self) -> (result: ReplicaApplyChangesScope<'_>)
        ensures
            result.wf(),
            result.position == old(self).buffer@.past.len(),
            *result.buffer == old(self).buffer,
            final(self).buffer == *final(result.buffer),
    {
        ReplicaApplyChangesScope::new(&mut self.buffer)
    }
}

/// The messages for a replica among others are those with its number, in their order: of one
/// message its packet or nothing, of two runs of messages those of the one and then those of
/// the other.
pub proof fn law_meant_for(
    dispatch: DispatchView,
    first: Seq<DispatchView>,
    second: Seq<DispatchView>,
    replica_id: u64,
)
    ensures
        meant_for(Seq::empty(), replica_id) == Seq::<PacketDataView>::empty(),
        dispatch.replica_id.0 == replica_id ==> meant_for(seq![dispatch], replica_id)
            == seq![dispatch.packet],
        dispatch.replica_id.0 != replica_id ==> meant_for(seq![dispatch], replica_id)
            == Seq::<PacketDataView>::empty(),
        meant_for(first + second, replica_id) == meant_for(first, replica_id) + meant_for(
            second,
            replica_id,
        ),
{
    assert(seq![dispatch] =~= Seq::<DispatchView>::empty().push(dispatch));
    lemma_meant_for_push(Seq::empty(), dispatch, replica_id);
    assert(Seq::<PacketDataView>::empty().push(dispatch.packet) =~= seq![dispatch.packet]);
    lemma_meant_for_both(first, second, replica_id);
}

/// A packet that a known replica sends waits with those that it sent before, behind them; what
/// came for it, and all other replicas, are as they were. Nobody sends for a replica that is not
/// known.
pub proof fn law_sent_packet_waits(
    link: LinkView,
    replica: Replica,
    packet: PacketDataView,
    other: u64,
)
    requires
        link.in_order(),
    ensures
        ({
            let after = link.with_packet(replica, packet);
            &&& !link.knows(replica) ==> after == link
            &&& link.knows(replica) ==> {
                let before = value_of(link.instances, replica.id.0)->0;
                let instance = value_of(after.instances, replica.id.0);
                &&& instance is Some
                &&& instance->0.outbox == before.outbox.push(packet)
                &&& instance->0.inbox == before.inbox
                &&& instance->0.ticket == replica.ticket
            }
            &&& other != replica.id.0 ==> value_of(after.instances, other) == value_of(
                link.instances,
                other,
            )
            &&& after.in_order()
            &&& after.outbox == link.outbox
            &&& after.inbox == link.inbox
            &&& after.left == link.left
        }),
{
    if link.knows(replica) {
        let instance = value_of(link.instances, replica.id.0)->Some_0;
        let changed = InstanceView { outbox: instance.outbox.push(packet), ..instance };
        law_with_value(link.instances, replica.id.0, changed, other);
        law_with_value(link.instances, replica.id.0, changed, replica.id.0);
    }
}

/// A replica is known by its number together with its ticket, and what waits for it is its own.
pub proof fn law_known_by_ticket(link: LinkView, replica: Replica, other: Replica)
    requires
        link.knows(replica),
    ensures
        value_of(link.instances, replica.id.0) is Some,
        link.inbox_of(replica) == Some(value_of(link.instances, replica.id.0)->0.inbox),
        other.id == replica.id && other.ticket != replica.ticket ==> !link.knows(other),
        other.id == replica.id && other.ticket == replica.ticket ==> link.knows(other),
{
}

/// Where there is a channel, a round hands all that replicas have to say to it, behind what was
/// there, and gives each replica what came for it, behind what it had. The order of packets is
/// kept, none is lost and none comes twice. Where there is none, packets wait.
pub proof fn law_round_moves_packets(link: LinkView, replica: Replica)
    requires
        link.in_order(),
        link.knows(replica),
    ensures
        ({
            let after = link.after_gathering().after_handing_out();
            let before = value_of(link.instances, replica.id.0)->0;
            let instance = value_of(after.instances, replica.id.0);
            &&& after.in_order()
            &&& after.knows(replica)
            &&& after.left == link.left
            &&& instance is Some
            &&& link.outbox is None ==> after.outbox is None && instance->0.outbox == before.outbox
            &&& link.outbox is Some ==> {
                &&& after.outbox is Some
                &&& after.outbox->0.len() >= link.outbox->0.len()
                &&& after.outbox->0.take(link.outbox->0.len() as int) == link.outbox->0
                &&& meant_for(
                    after.outbox->0.skip(link.outbox->0.len() as int),
                    replica.id.0,
                ) == before.outbox
                &&& instance->0.outbox.len() == 0
            }
            &&& link.inbox is None ==> after.inbox is None && after.inbox_of(replica) == Some(
                before.inbox,
            )
            &&& link.inbox is Some ==> {
                &&& after.inbox == Some(Seq::<DispatchView>::empty())
                &&& after.inbox_of(replica) == Some(
                    before.inbox + meant_for(link.inbox->0, replica.id.0),
                )
            }
        }),
{
    let id = replica.id.0;
    let gathered_link = link.after_gathering();
    let after = gathered_link.after_handing_out();
    lemma_place(link.instances, id);
    lemma_same_keys(link.instances, gathered_link.instances, id);
    lemma_same_keys(gathered_link.instances, after.instances, id);
    law_packets_reach_their_replica(link.instances, id);
    assert(keys_ascend(gathered_link.instances));
    assert(keys_ascend(after.instances));
    let place = place_of(link.instances, id);
    assert(has_key(link.instances, id));
    assert(after.instances[place].0 == id);
    if link.outbox is Some {
        let queue = link.outbox->0;
        let all = queue + gathered(link.instances);
        assert(all.take(queue.len() as int) =~= queue);
        assert(all.skip(queue.len() as int) =~= gathered(link.instances));
    }
}

/// A replica that a set creates is there with that number, under a ticket that the next one will
/// not have, and can write and read on both ways; all others are as they were.
pub proof fn law_created_replica_is_there(set: ReplicaSetView, id: ReplicaId, other: ReplicaId)
    requires
        set.change.in_order(),
        set.rpc.in_order(),
        !set.has(id),
    ensures
        ({
            let after = set.with_replica(id);
            let replica = set.next_replica(id);
            &&& replica.id == id
            &&& after.has(id)
            &&& after.change.knows(replica)
            &&& after.rpc.knows(replica)
            &&& after.change.inbox_of(replica) == Some(Seq::<PacketDataView>::empty())
            &&& after.rpc.inbox_of(replica) == Some(Seq::<PacketDataView>::empty())
            &&& after.next_replica(other).ticket != replica.ticket
            &&& other != id ==> {
                &&& after.has(other) <==> set.has(other)
                &&& value_of(after.change.instances, other.0) == value_of(
                    set.change.instances,
                    other.0,
                )
                &&& value_of(after.rpc.instances, other.0) == value_of(set.rpc.instances, other.0)
            }
            &&& after.killed == set.killed
            &&& after.change.outbox == set.change.outbox
            &&& after.change.inbox == set.change.inbox
            &&& after.rpc.outbox == set.rpc.outbox
            &&& after.rpc.inbox == set.rpc.inbox
        }),
{
    let fresh = InstanceView::fresh(set.tickets);
    law_with_value(set.change.instances, id.0, fresh, other.0);
    law_with_value(set.change.instances, id.0, fresh, id.0);
    law_with_value(set.rpc.instances, id.0, fresh, other.0);
    law_with_value(set.rpc.instances, id.0, fresh, id.0);
}

/// A replica that a set destroys is not there any more on either way, and all others are as they
/// were. What waits for it waits on for who holds it.
pub proof fn law_destroyed_replica_is_gone(
    set: ReplicaSetView,
    replica: Replica,
    other: ReplicaId,
)
    requires
        set.change.in_order(),
        set.rpc.in_order(),
    ensures
        ({
            let after = set.without_replica(replica.id);
            &&& !after.has(replica.id)
            &&& !after.change.knows(replica)
            &&& !after.rpc.knows(replica)
            &&& set.change.knows(replica) ==> after.change.inbox_of(replica)
                == set.change.inbox_of(replica)
            &&& set.rpc.knows(replica) ==> after.rpc.inbox_of(replica) == set.rpc.inbox_of(replica)
            &&& other != replica.id ==> {
                &&& after.has(other) <==> set.has(other)
                &&& value_of(after.change.instances, other.0) == value_of(
                    set.change.instances,
                    other.0,
                )
                &&& value_of(after.rpc.instances, other.0) == value_of(set.rpc.instances, other.0)
            }
            &&& after.killed == set.killed
            &&& after.tickets == set.tickets
        }),
{
    law_without_key(set.change.instances, replica.id.0, other.0);
    law_without_key(set.change.instances, replica.id.0, replica.id.0);
    law_without_key(set.rpc.instances, replica.id.0, other.0);
    law_without_key(set.rpc.instances, replica.id.0, replica.id.0);
    lemma_place(set.change.instances, replica.id.0);
    if let Some(instance) = value_of(set.change.instances, replica.id.0) {
        law_with_value(set.change.left, instance.ticket, instance.inbox, replica.ticket);
    }
    if let Some(instance) = value_of(set.rpc.instances, replica.id.0) {
        law_with_value(set.rpc.left, instance.ticket, instance.inbox, replica.ticket);
    }
}

/// Replicas that nobody holds any more are buried, all of them and no others.
pub proof fn law_only_the_killed_are_buried(set: ReplicaSetView, id: ReplicaId)
    requires
        set.change.in_order(),
    ensures
        set.after_burial().killed.len() == 0,
        set.after_burial().has(id) <==> set.has(id) && forall|i: int|
            0 <= i < set.killed.len() ==> (#[trigger] set.killed[i]).id != id,
        set.maintained().killed.len() == 0,
{
    lemma_killed_are_gone(set.change, set.killed, id);
}

proof fn lemma_killed_are_gone(link: LinkView, killed: Seq<Replica>, id: ReplicaId)
    requires
        link.in_order(),
    ensures
        without_killed(link, killed).in_order(),
        has_key(without_killed(link, killed).instances, id.0) <==> has_key(link.instances, id.0)
            && forall|i: int| 0 <= i < killed.len() ==> (#[trigger] killed[i]).id != id,
        (forall|i: int| 0 <= i < killed.len() ==> (#[trigger] killed[i]).id != id) ==> value_of(
            without_killed(link, killed).instances,
            id.0,
        ) == value_of(link.instances, id.0),
    decreases killed.len(),
{
    if killed.len() > 0 {
        let rest = killed.drop_last();
        let last = killed.last();
        let before = without_killed(link, rest);
        lemma_killed_are_gone(link, rest, id);
        law_without_key(before.instances, last.id.0, id.0);
        law_without_key(before.instances, last.id.0, last.id.0);
        lemma_place(before.instances, id.0);
        lemma_place(before.instances, last.id.0);
        if let Some(instance) = value_of(before.instances, last.id.0) {
            law_with_value(before.left, instance.ticket, instance.inbox, last.ticket);
        }
        law_without_key(before.without_replica(last.id).left, last.ticket, last.ticket);
        assert(forall|i: int| 0 <= i < rest.len() ==> rest[i] == killed[i]);
        if forall|i: int| 0 <= i < killed.len() ==> (#[trigger] killed[i]).id != id {
            assert(killed[killed.len() - 1].id != id);
            assert(forall|i: int| 0 <= i < rest.len() ==> (#[trigger] rest[i]).id != id);
        }
        if last.id != id && (forall|i: int| 0 <= i < rest.len() ==> (#[trigger] rest[i]).id != id) {
            assert forall|i: int| 0 <= i < killed.len() implies (#[trigger] killed[i]).id
                != id by {
                if i < rest.len() {
                    assert(rest[i] == killed[i]);
                }
            }
        }
        assert(killed[killed.len() - 1] == last);
        let after = before.without_replica(last.id);
        lemma_place(after.instances, id.0);
        assert(has_key(after.instances, id.0) <==> value_of(after.instances, id.0) is Some);
        assert(has_key(before.instances, id.0) <==> value_of(before.instances, id.0) is Some);
    }
}

/// A round of a set gives each replica that lives on, on both ways, what came for it, and hands
/// all that it has to say to the channel.
pub proof fn law_maintained_set_moves_packets(set: ReplicaSetView, replica: Replica)
    requires
        set.change.in_order(),
        set.rpc.in_order(),
        set.change.knows(replica),
        set.rpc.knows(replica),
        forall|i: int| 0 <= i < set.killed.len() ==> (#[trigger] set.killed[i]).id != replica.id,
    ensures
        ({
            let after = set.maintained();
            let change = value_of(set.change.instances, replica.id.0)->0;
            let rpc = value_of(set.rpc.instances, replica.id.0)->0;
            &&& after.change.knows(replica)
            &&& after.rpc.knows(replica)
            &&& set.change.inbox matches Some(queue) ==> after.change.inbox_of(replica) == Some(
                change.inbox + meant_for(queue, replica.id.0),
            )
            &&& set.rpc.inbox matches Some(queue) ==> after.rpc.inbox_of(replica) == Some(
                rpc.inbox + meant_for(queue, replica.id.0),
            )
            &&& set.change.outbox matches Some(queue) ==> after.change.outbox is Some && meant_for(
                after.change.outbox->0.skip(queue.len() as int),
                replica.id.0,
            ) == change.outbox
            &&& set.rpc.outbox matches Some(queue) ==> after.rpc.outbox is Some && meant_for(
                after.rpc.outbox->0.skip(queue.len() as int),
                replica.id.0,
            ) == rpc.outbox
            &&& after.tickets == set.tickets
        }),
{
    let living = set.after_burial();
    lemma_killed_are_gone(set.change, set.killed, replica.id);
    lemma_killed_are_gone(set.rpc, set.killed, replica.id);
    lemma_burial_leaves_queues(set.change, set.killed);
    lemma_burial_leaves_queues(set.rpc, set.killed);
    law_round_moves_packets(living.change, replica);
    law_round_moves_packets(living.rpc, replica);
}

proof fn lemma_burial_leaves_queues(link: LinkView, killed: Seq<Replica>)
    ensures
        without_killed(link, killed).outbox == link.outbox,
        without_killed(link, killed).inbox == link.inbox,
    decreases killed.len(),
{
    if killed.len() > 0 {
        lemma_burial_leaves_queues(link, killed.drop_last());
    }
}

/// Binding a way to a channel leaves its replicas alone, drops what was queued for another
/// channel, and lets it write and read as the channel does.
pub proof fn law_bound_ways(link: LinkView, writes: bool, reads: bool)
    ensures
        ({
            let bound = bound_to(link, writes, reads);
            &&& bound.outbox is Some <==> writes
            &&& bound.inbox is Some <==> reads
            &&& bound.outbox is Some ==> bound.outbox->0.len() == 0
            &&& bound.inbox is Some ==> bound.inbox->0.len() == 0
            &&& bound.instances == link.instances
            &&& bound.left == link.left
            &&& UnboundView::of(link).outbox == if link.outbox is Some {
                link.outbox->0
            } else {
                Seq::empty()
            }
            &&& UnboundView::of(link).inbox == if link.inbox is Some {
                link.inbox->0
            } else {
                Seq::empty()
            }
        }),
{
}

/// The packet of changes holds all that was written, for those it was said to be for.
pub proof fn law_packet_of_changes(changes: ReplicaCollectChanges)
    ensures
        changes.packet().data == changes.buffer@.past + changes.buffer@.rest,
        changes.packet().recepients == changes.recepients@,
        changes.packet().sender is None,
        changes.is_fresh() ==> changes.packet().data.len() == 0
            && changes.packet().recepients.len() == 0,
{
}

/// Reading the head of a call tells the call, and leaves its arguments as they came.
pub proof fn law_head_before_its_arguments(
    decoded: Result<RpcPartialDecoder, Error>,
    head: HeadView,
    arguments: Seq<u8>,
)
    requires
        head.kind <= 1,
        head.guid.len() == 16,
        encode_utf8(head.procedure).len() < 0x1_0000,
        is_head_of(decoded, head.bytes() + arguments),
    ensures
        decoded is Ok,
        decoded->Ok_0.head() == head,
        decoded->Ok_0.rest() == arguments,
{
    head.law_round_trip(None, arguments);
    assert((head.bytes() + arguments).skip(head.bytes().len() as int) =~= arguments);
}

} // verus!
