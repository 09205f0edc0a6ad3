//! Values that are kept the same on several machines.

pub mod blanks;
pub mod containers;
pub mod maps;
pub mod primitives;
pub mod rpc;
pub mod shared;
pub mod tuples;

use std::cmp::Ordering;
use std::collections::hash_map::DefaultHasher;
use std::hash::{Hash, Hasher};
use std::marker::PhantomData;
use vstd::prelude::*;
use vstd::std_specs::cmp::{
    PartialEqSpec, PartialEqSpecImpl, PartialOrdSpec, PartialOrdSpecImpl,
};
use vstd::std_specs::convert::FromSpecImpl;
use vstd::std_specs::hash::DefaultHasherAdditionalSpecFns;

use crate::buffer::Buffer;
use crate::codec::{Codec, LosslessCodec};
use crate::error::Error;
use crate::leb::{parse_unsigned, read_unsigned, unsigned_bytes, write_unsigned};
use crate::primitive::{parse_byte, read_byte};
use crate::wire::{failure, Applied, Emitted};

verus! {

pub type HashReplicated<T> = Replicated<HashRep, T>;

pub type MutReplicated<T> = Replicated<MutRep, T>;

pub type ManReplicated<T> = Replicated<ManRep, T>;

pub type CodecReplicated<P, T, C> = Replicated<P, CodecRep<T, C>>;

pub type HashCodecReplicated<T, C> = CodecReplicated<HashRep, T, C>;

pub type MutCodecReplicated<T, C> = CodecReplicated<MutRep, T, C>;

pub type ManCodecReplicated<T, C> = CodecReplicated<ManRep, T, C>;

/// A value that can write its state and take on a written state.
pub trait Replicable: Sized {
    /// What matters of a value.
    type Model;

    /// What matters of the value.
    spec fn model(self) -> Self::Model;

    /// What writing the value comes to.
    spec fn emit(self) -> Emitted;

    /// What reading from `bytes` makes of a value.
    spec fn parse(prior: Self::Model, bytes: Seq<u8>) -> Applied<Self::Model>;

    /// Reading takes no more bytes than there are.
    proof fn parse_is_within(prior: Self::Model, bytes: Seq<u8>)
        ensures
            Self::parse(prior, bytes).consumed <= bytes.len(),
    ;

    /// Writes the state at the cursor.
    fn collect_changes(&self, buffer: &mut Buffer) -> (result: Result<(), Error>)
        ensures
            final(buffer)@ == old(buffer)@.written(self.emit().bytes),
            failure(result) == self.emit().error,
    ;

    /// Takes on the state that is read from the cursor on.
    fn apply_changes(&mut self, buffer: &mut Buffer) -> (result: Result<(), Error>)
        ensures
            final(self).model() == Self::parse(old(self).model(), old(buffer)@.rest).model,
            failure(result) == Self::parse(old(self).model(), old(buffer)@.rest).error,
            final(buffer)@ == old(buffer)@.advanced(
                Self::parse(old(self).model(), old(buffer)@.rest).consumed,
            ),
    ;
}

/// A replicable value of which a blank one can be made.
pub trait DefaultReplicable: Replicable + Default {
    /// What matters of a blank value.
    spec fn blank() -> Self::Model;

    /// A value made by `default` is blank.
    proof fn default_is_blank(value: Self)
        requires
            Self::default.ensures((), value),
        ensures
            value.model() == Self::blank(),
    ;
}

/// A replicable value that takes on exactly the state that was written.
pub trait LosslessReplicable: Replicable {
    /// Whether the value and all lengths in it fit in what is written of them.
    spec fn fits(self) -> bool;

    /// Whatever a value was before, it becomes what was written, by exactly its bytes.
    proof fn law_round_trip(self, prior: Self::Model, tail: Seq<u8>)
        requires
            self.fits(),
            self.emit().error is None,
        ensures
            Self::parse(prior, self.emit().bytes + tail) == (Applied {
                model: self.model(),
                error: None,
                consumed: self.emit().bytes.len(),
            }),
    ;
}

impl Replicable for () {
    type Model = ();

    open spec fn model(self) -> () {
        ()
    }

    open spec fn emit(self) -> Emitted {
        Emitted::nothing()
    }

    open spec fn parse(prior: (), bytes: Seq<u8>) -> Applied<()> {
        Applied { model: (), error: None, consumed: 0 }
    }

    proof fn parse_is_within(prior: (), bytes: Seq<u8>) {
    }

    fn collect_changes(&self, buffer: &mut Buffer) -> (result: Result<(), Error>) {
        proof {
            buffer@.lemma_written_nothing();
        }
        Ok(())
    }

    fn apply_changes(&mut self, buffer: &mut Buffer) -> (result: Result<(), Error>) {
        proof {
            buffer@.lemma_advanced_nothing();
        }
        Ok(())
    }
}

impl DefaultReplicable for () {
    open spec fn blank() -> () {
        ()
    }

    proof fn default_is_blank(value: ()) {
    }
}

impl LosslessReplicable for () {
    open spec fn fits(self) -> bool {
        true
    }

    proof fn law_round_trip(self, prior: (), tail: Seq<u8>) {
    }
}

/// How it is told that a value has to be replicated.
pub trait ReplicationPolicy<T: Replicable>: Sized + Default {
    /// Whether looking at `data` can turn the policy into `after` and give `changed`.
    spec fn detects(self, data: T, after: Self, changed: bool) -> bool;

    /// What becomes of the policy when `data` is handed out to be changed.
    spec fn mutated(self, data: T) -> Self;

    /// Whether `data` has to be replicated. Asking again starts over.
    fn detect_change(&mut self, data: &T) -> (result: bool)
        ensures
            old(self).detects(*data, *final(self), result),
    ;

    /// Takes note that `data` is handed out to be changed.
    fn on_mutation(&mut self, data: &T)
        ensures
            *final(self) == old(self).mutated(*data),
    ;
}

/// [`Hash::hash`] into a `DefaultHasher`, which is given back. What is written is up to the
/// implementation of [`Hash`]: nothing is claimed of it.
#[verifier::external_body]
fn feed<T: Hash>(data: &T, hasher: DefaultHasher) -> (result: DefaultHasher) {
    let mut hasher = hasher;
    data.hash(&mut hasher);
    hasher
}

/// Whether `result` is a hash of `data`: what a fresh hasher that `data` was fed to finishes
/// with. Which bytes `data` feeds is up to the implementation of [`Hash`].
pub closed spec fn hashes_to<T: Hash>(data: T, result: u64) -> bool {
    exists|fresh: DefaultHasher, fed: DefaultHasher|
        fresh@ == Seq::<Seq<u8>>::empty() && #[trigger] call_ensures(
            feed::<T>,
            (&data, fresh),
            fed,
        ) && result == DefaultHasher::spec_finish(fed@)
}

/// A hash is what a hasher makes of some bytes.
pub proof fn law_hash_is_of_bytes<T: Hash>(data: T, result: u64)
    requires
        hashes_to(data, result),
    ensures
        exists|written: Seq<Seq<u8>>| result == #[trigger] DefaultHasher::spec_finish(written),
{
}

/// The hash of `data`.
pub fn hash<T: Hash>(data: &T) -> (result: u64)
    ensures
        hashes_to(*data, result),
{
    let fresh = DefaultHasher::new();
    let fed = feed(data, fresh);
    fed.finish()
}

/// Change when data hash changes.
pub struct HashRep(pub u64);

impl HashRep {
    /// Takes note of a hash and tells whether it is a new one.
    pub fn detect_hash(&mut self, hash: u64) -> (result: bool)
        ensures
            result == (old(self).0 != hash),
            final(self).0 == hash,
    {
        let before: u64 = self.0;
        self.0 = hash;
        before != hash
    }
}

impl Default for HashRep {
    fn default() -> (result: Self)
        ensures
            result.0 == 0,
    {
        HashRep(0)
    }
}

impl<T: Replicable + Hash> ReplicationPolicy<T> for HashRep {
    open spec fn detects(self, data: T, after: Self, changed: bool) -> bool {
        changed == (self.0 != after.0) && hashes_to(data, after.0)
    }

    open spec fn mutated(self, data: T) -> Self {
        self
    }

    fn detect_change(&mut self, data: &T) -> (result: bool) {
        let hash: u64 = hash(data);
        self.detect_hash(hash)
    }

    fn on_mutation(&mut self, data: &T) {
    }
}

/// Change when data is potentially mutated.
pub struct MutRep(pub bool);

impl Default for MutRep {
    fn default() -> (result: Self)
        ensures
            result.0,
    {
        MutRep(true)
    }
}

impl<T: Replicable> ReplicationPolicy<T> for MutRep {
    open spec fn detects(self, data: T, after: Self, changed: bool) -> bool {
        changed == self.0 && !after.0
    }

    open spec fn mutated(self, data: T) -> Self {
        MutRep(true)
    }

    fn detect_change(&mut self, data: &T) -> (result: bool) {
        let before: bool = self.0;
        self.0 = false;
        before
    }

    fn on_mutation(&mut self, data: &T) {
        self.0 = true;
    }
}

/// Change when manually marked as changed.
pub struct ManRep(pub bool);

impl Default for ManRep {
    fn default() -> (result: Self)
        ensures
            result.0,
    {
        ManRep(true)
    }
}

impl<T: Replicable> ReplicationPolicy<T> for ManRep {
    open spec fn detects(self, data: T, after: Self, changed: bool) -> bool {
        changed == self.0 && !after.0
    }

    open spec fn mutated(self, data: T) -> Self {
        self
    }

    fn detect_change(&mut self, data: &T) -> (result: bool) {
        let before: bool = self.0;
        self.0 = false;
        before
    }

    fn on_mutation(&mut self, data: &T) {
    }
}

/// A value that is written only when its policy tells that it changed.
pub struct Replicated<P: ReplicationPolicy<T>, T: Replicable> {
    data: T,
    meta: P,
}

/// What writing a changed value behind a tag and its length comes to.
pub open spec fn emit_tagged(tag: u8, content: Emitted) -> Emitted {
    match content.error {
        None => Emitted::of(seq![tag] + unsigned_bytes(content.bytes.len()) + content.bytes),
        Some(error) => Emitted { bytes: Seq::empty(), error: Some(error) },
    }
}

/// What reading a value behind a tag and a length makes of it. Behind another tag the value
/// stays as it is and nothing is taken. The bytes behind the tag, those of the length
/// included, have to be as many as the length says, else nothing is taken either.
pub open spec fn parse_tagged<T: Replicable>(tag: u8, prior: T::Model, bytes: Seq<u8>) -> Applied<
    T::Model,
> {
    let found = parse_byte(bytes);
    match found.result {
        Err(error) => Applied { model: prior, error: Some(error), consumed: found.consumed },
        Ok(byte) => if byte != tag {
            Applied { model: prior, error: None, consumed: 0 }
        } else {
            let length = parse_unsigned(bytes.skip(1));
            match length.0 {
                Err(error) => Applied {
                    model: prior,
                    error: Some(error),
                    consumed: 1 + length.1,
                },
                Ok(size) => {
                    let applied = T::parse(prior, bytes.skip(1 + length.1 as int));
                    if applied.error is Some {
                        Applied {
                            model: applied.model,
                            error: applied.error,
                            consumed: 1 + length.1 + applied.consumed,
                        }
                    } else if length.1 + applied.consumed != size {
                        Applied {
                            model: applied.model,
                            error: Some(Error::LengthMismatch),
                            consumed: 0,
                        }
                    } else {
                        Applied {
                            model: applied.model,
                            error: None,
                            consumed: 1 + length.1 + applied.consumed,
                        }
                    }
                },
            }
        },
    }
}

impl<P: ReplicationPolicy<T>, T: Replicable> Replicated<P, T> {
    /// The value.
    pub closed spec fn data(self) -> T {
        self.data
    }

    /// The policy.
    pub closed spec fn meta(self) -> P {
        self.meta
    }

    /// A value that was never replicated.
    pub fn new(data: T) -> (result: Self)
        ensures
            result.data() == data,
            P::default.ensures((), result.meta()),
    {
        Replicated { meta: P::default(), data }
    }

    pub fn into_inner(self) -> (result: T)
        ensures
            result == self.data(),
    {
        self.data
    }

    /// Writes the value if it changed. Says whether it did.
    pub fn collect_changes(this: &mut Self, buffer: &mut Buffer) -> (result: Result<bool, Error>)
        ensures
            final(this).data() == old(this).data(),
            exists|changed: bool|
                {
                    &&& #[trigger] old(this).meta().detects(
                        old(this).data(),
                        final(this).meta(),
                        changed,
                    )
                    &&& if changed {
                        &&& final(buffer)@ == old(buffer)@.written(old(this).data().emit().bytes)
                        &&& result == match old(this).data().emit().error {
                            None => Ok::<bool, Error>(true),
                            Some(error) => Err(error),
                        }
                    } else {
                        final(buffer)@ == old(buffer)@ && result == Ok::<bool, Error>(false)
                    }
                },
    {
        let changed: bool = this.meta.detect_change(&this.data);
        assert(old(this).meta().detects(old(this).data(), this.meta(), changed));
        if changed {
            match this.data.collect_changes(buffer) {
                Ok(_) => Ok(true),
                Err(error) => Err(error),
            }
        } else {
            Ok(false)
        }
    }

    /// Writes the value behind `TAG` and its length if it changed. Says whether it did.
    pub fn maybe_collect_changes<const TAG: u8>(
        this: &mut Self,
        buffer: &mut Buffer,
    ) -> (result: Result<bool, Error>)
        ensures
            final(this).data() == old(this).data(),
            exists|changed: bool|
                {
                    &&& #[trigger] old(this).meta().detects(
                        old(this).data(),
                        final(this).meta(),
                        changed,
                    )
                    &&& if changed {
                        let tagged = emit_tagged(TAG, old(this).data().emit());
                        &&& final(buffer)@ == old(buffer)@.written(tagged.bytes)
                        &&& result == match tagged.error {
                            None => Ok::<bool, Error>(true),
                            Some(error) => Err(error),
                        }
                    } else {
                        final(buffer)@ == old(buffer)@ && result == Ok::<bool, Error>(false)
                    }
                },
    {
        let ghost before = buffer@;
        let changed: bool = this.meta.detect_change(&this.data);
        assert(old(this).meta().detects(old(this).data(), this.meta(), changed));
        if changed {
            let mut content = Buffer::new(Vec::new());
            match this.data.collect_changes(&mut content) {
                Ok(_) => {
                    let bytes = content.into_inner();
                    buffer.write_byte(TAG);
                    write_unsigned(buffer, bytes.len() as u64);
                    buffer.write_all(bytes.as_slice());
                    proof {
                        let length = unsigned_bytes(bytes@.len());
                        assert(bytes@ =~= this.data.emit().bytes);
                        before.lemma_written_twice(seq![TAG], length);
                        before.lemma_written_twice(seq![TAG] + length, bytes@);
                    }
                    Ok(true)
                },
                Err(error) => {
                    proof {
                        before.lemma_written_nothing();
                    }
                    Err(error)
                },
            }
        } else {
            Ok(false)
        }
    }

    /// Takes on the state that is read from the cursor on.
    pub fn apply_changes(&mut self, buffer: &mut Buffer) -> (result: Result<(), Error>)
        ensures
            final(self).meta() == old(self).meta(),
            final(self).data().model() == T::parse(
                old(self).data().model(),
                old(buffer)@.rest,
            ).model,
            failure(result) == T::parse(old(self).data().model(), old(buffer)@.rest).error,
            final(buffer)@ == old(buffer)@.advanced(
                T::parse(old(self).data().model(), old(buffer)@.rest).consumed,
            ),
    {
        self.data.apply_changes(buffer)
    }

    /// Takes on the state behind `TAG` and a length, if that tag is next.
    pub fn maybe_apply_changes<const TAG: u8>(&mut self, buffer: &mut Buffer) -> (result: Result<
        (),
        Error,
    >)
        ensures
            final(self).meta() == old(self).meta(),
            final(self).data().model() == parse_tagged::<T>(
                TAG,
                old(self).data().model(),
                old(buffer)@.rest,
            ).model,
            failure(result) == parse_tagged::<T>(
                TAG,
                old(self).data().model(),
                old(buffer)@.rest,
            ).error,
            final(buffer)@ == old(buffer)@.advanced(
                parse_tagged::<T>(TAG, old(self).data().model(), old(buffer)@.rest).consumed,
            ),
    {
        let ghost before = buffer@;
        let ghost bytes = buffer@.rest;
        let position: usize = buffer.position();
        proof {
            before.lemma_advanced_nothing();
        }
        match read_byte(buffer) {
            Ok(tag) => {
                if tag != TAG {
                    proof {
                        before.lemma_advanced_keeps_bytes(1);
                        before.lemma_split_again();
                    }
                    buffer.set_position(position);
                    return Ok(());
                }
                let ghost length = parse_unsigned(bytes.skip(1));
                proof {
                    before.lemma_advanced_twice(1, length.1);
                    crate::leb::lemma_parse_is_within(bytes.skip(1));
                }
                match read_unsigned(buffer) {
                    Ok(size) => {
                        let ghost prior = self.data.model();
                        let ghost applied = T::parse(prior, bytes.skip(1 + length.1 as int));
                        proof {
                            assert(bytes.skip(1).skip(length.1 as int) =~= bytes.skip(
                                1 + length.1 as int,
                            ));
                            T::parse_is_within(prior, bytes.skip(1 + length.1 as int));
                            before.lemma_advanced_twice(1 + length.1, applied.consumed);
                        }
                        match self.data.apply_changes(buffer) {
                            Ok(_) => {
                                let taken: usize = buffer.position() - position - 1;
                                if taken as u64 != size {
                                    proof {
                                        before.lemma_advanced_keeps_bytes(
                                            1 + length.1 + applied.consumed,
                                        );
                                        before.lemma_split_again();
                                    }
                                    buffer.set_position(position);
                                    return Err(Error::LengthMismatch);
                                }
                                Ok(())
                            },
                            Err(error) => Err(error),
                        }
                    },
                    Err(error) => Err(error),
                }
            },
            Err(error) => Err(error),
        }
    }

    /// Makes the value count as changed.
    pub fn mark_changed(&mut self)
        ensures
            final(self).data() == old(self).data(),
            P::default.ensures((), final(self).meta()),
    {
        self.meta = P::default();
    }

    /// The value.
    pub fn as_ref(&self) -> (result: &T)
        ensures
            *result == self.data(),
    {
        &self.data
    }

    /// The value, to be changed unnoticed.
    pub fn as_mut(&mut self) -> (result: &mut T)
        ensures
            *result == old(self).data(),
            final(self).data() == *final(result),
            final(self).meta() == old(self).meta(),
    {
        &mut self.data
    }

    /// The value.
    pub fn deref(&self) -> (result: &T)
        ensures
            *result == self.data(),
    {
        &self.data
    }

    /// The value, to be changed with the policy taking note.
    pub fn deref_mut(&mut self) -> (result: &mut T)
        ensures
            *result == old(self).data(),
            final(self).data() == *final(result),
            final(self).meta() == old(self).meta().mutated(old(self).data()),
    {
        self.meta.on_mutation(&self.data);
        &mut self.data
    }
}

impl<P: ReplicationPolicy<T>, T: Replicable + Default> Default for Replicated<P, T> {
    fn default() -> (result: Self)
        ensures
            T::default.ensures((), result.data()),
            P::default.ensures((), result.meta()),
    {
        Replicated { meta: P::default(), data: T::default() }
    }
}

impl<P: ReplicationPolicy<T>, T: Replicable + Clone> Clone for Replicated<P, T> {
    /// A copy that was never replicated.
    fn clone(&self) -> (result: Self)
        ensures
            cloned::<T>(self.data(), result.data()),
            P::default.ensures((), result.meta()),
    {
        Replicated { meta: P::default(), data: self.data.clone() }
    }
}

impl<P: ReplicationPolicy<T>, T: Replicable> From<T> for Replicated<P, T> {
    fn from(value: T) -> (result: Self)
        ensures
            result.data() == value,
            P::default.ensures((), result.meta()),
    {
        Replicated::new(value)
    }
}

impl<P: ReplicationPolicy<T>, T: Replicable> FromSpecImpl<T> for Replicated<P, T> {
    open spec fn obeys_from_spec() -> bool {
        false
    }

    open spec fn from_spec(value: T) -> Self {
        arbitrary()
    }
}

impl<P: ReplicationPolicy<T>, T: Replicable + PartialEq> PartialEq for Replicated<P, T> {
    fn eq(&self, other: &Self) -> (result: bool) {
        self.data == other.data
    }
}

impl<P: ReplicationPolicy<T>, T: Replicable + PartialEq> PartialEqSpecImpl for Replicated<P, T> {
    open spec fn obeys_eq_spec() -> bool {
        T::obeys_eq_spec()
    }

    open spec fn eq_spec(&self, other: &Self) -> bool {
        self.data().eq_spec(&other.data())
    }
}

impl<P: ReplicationPolicy<T>, T: Replicable + Eq> Eq for Replicated<P, T> {
}

impl<P: ReplicationPolicy<T>, T: Replicable + PartialOrd> PartialOrd for Replicated<P, T> {
    fn partial_cmp(&self, other: &Self) -> (result: Option<Ordering>) {
        self.data.partial_cmp(&other.data)
    }
}

impl<P: ReplicationPolicy<T>, T: Replicable + PartialOrd> PartialOrdSpecImpl for Replicated<P, T> {
    open spec fn obeys_partial_cmp_spec() -> bool {
        T::obeys_partial_cmp_spec()
    }

    open spec fn partial_cmp_spec(&self, other: &Self) -> Option<Ordering> {
        self.data().partial_cmp_spec(&other.data())
    }
}

impl<P: ReplicationPolicy<T>, T: Replicable + Hash> Hash for Replicated<P, T> {
    /// [`Hash::hash`] of the value alone: what `state` makes of it is not claimed.
    #[verifier::external_body]
    fn hash<H: Hasher>(&self, state: &mut H) {
        self.data.hash(state)
    }
}

/// A value that is replicated by a codec.
#[verifier::reject_recursive_types(T)]
#[verifier::reject_recursive_types(C)]
pub struct CodecRep<T, C: Codec<Value = T>> {
    data: T,
    codec: PhantomData<C>,
}

impl<T, C: Codec<Value = T>> CodecRep<T, C> {
    /// The value.
    pub closed spec fn data(self) -> T {
        self.data
    }

    /// What holds `data`.
    pub closed spec fn holding(data: T) -> Self {
        CodecRep { data, codec: PhantomData }
    }

    pub fn new(data: T) -> (result: Self)
        ensures
            result.data() == data,
            result == Self::holding(data),
    {
        CodecRep { data, codec: PhantomData }
    }

    pub fn into_inner(self) -> (result: T)
        ensures
            result == self.data(),
    {
        self.data
    }

    /// The value.
    pub fn as_ref(&self) -> (result: &T)
        ensures
            *result == self.data(),
    {
        &self.data
    }

    /// The value, to be changed.
    pub fn as_mut(&mut self) -> (result: &mut T)
        ensures
            *result == old(self).data(),
            final(self).data() == *final(result),
    {
        &mut self.data
    }
}

impl<T, C: Codec<Value = T>> From<T> for CodecRep<T, C> {
    fn from(value: T) -> (result: Self)
        ensures
            result.data() == value,
    {
        CodecRep::new(value)
    }
}

impl<T, C: Codec<Value = T>> FromSpecImpl<T> for CodecRep<T, C> {
    open spec fn obeys_from_spec() -> bool {
        true
    }

    open spec fn from_spec(value: T) -> Self {
        CodecRep::holding(value)
    }
}

impl<T: Default, C: Codec<Value = T>> Default for CodecRep<T, C> {
    fn default() -> (result: Self)
        ensures
            T::default.ensures((), result.data()),
    {
        CodecRep { data: T::default(), codec: PhantomData }
    }
}

impl<T: Clone, C: Codec<Value = T>> Clone for CodecRep<T, C> {
    fn clone(&self) -> (result: Self)
        ensures
            cloned::<T>(self.data(), result.data()),
    {
        CodecRep { data: self.data.clone(), codec: PhantomData }
    }
}

impl<T: PartialEq, C: Codec<Value = T>> PartialEq for CodecRep<T, C> {
    fn eq(&self, other: &Self) -> (result: bool) {
        self.data == other.data
    }
}

impl<T: PartialEq, C: Codec<Value = T>> PartialEqSpecImpl for CodecRep<T, C> {
    open spec fn obeys_eq_spec() -> bool {
        T::obeys_eq_spec()
    }

    open spec fn eq_spec(&self, other: &Self) -> bool {
        self.data().eq_spec(&other.data())
    }
}

impl<T: Eq, C: Codec<Value = T>> Eq for CodecRep<T, C> {
}

impl<T: PartialOrd, C: Codec<Value = T>> PartialOrd for CodecRep<T, C> {
    fn partial_cmp(&self, other: &Self) -> (result: Option<Ordering>) {
        self.data.partial_cmp(&other.data)
    }
}

impl<T: PartialOrd, C: Codec<Value = T>> PartialOrdSpecImpl for CodecRep<T, C> {
    open spec fn obeys_partial_cmp_spec() -> bool {
        T::obeys_partial_cmp_spec()
    }

    open spec fn partial_cmp_spec(&self, other: &Self) -> Option<Ordering> {
        self.data().partial_cmp_spec(&other.data())
    }
}

impl<T: Hash, C: Codec<Value = T>> Hash for CodecRep<T, C> {
    /// [`Hash::hash`] of the value alone: what `state` makes of it is not claimed.
    #[verifier::external_body]
    fn hash<H: Hasher>(&self, state: &mut H) {
        self.data.hash(state)
    }
}

impl<T, C: Codec<Value = T>> Replicable for CodecRep<T, C> {
    type Model = C::Model;

    open spec fn model(self) -> C::Model {
        C::model(self.data())
    }

    open spec fn emit(self) -> Emitted {
        C::emit(self.data())
    }

    open spec fn parse(prior: C::Model, bytes: Seq<u8>) -> Applied<C::Model> {
        Applied::replaced(prior, C::parse(bytes))
    }

    proof fn parse_is_within(prior: C::Model, bytes: Seq<u8>) {
        C::parse_is_within(bytes);
    }

    fn collect_changes(&self, buffer: &mut Buffer) -> (result: Result<(), Error>) {
        C::encode(&self.data, buffer)
    }

    fn apply_changes(&mut self, buffer: &mut Buffer) -> (result: Result<(), Error>)
        ensures
            match C::parse(old(buffer)@.rest).result {
                Ok(model) => result is Ok && C::model(final(self).data()) == model,
                Err(error) => result == Err::<(), Error>(error) && final(self).data() == old(
                    self,
                ).data(),
            },
    {
        match C::decode(buffer) {
            Ok(data) => {
                self.data = data;
                Ok(())
            },
            Err(error) => Err(error),
        }
    }
}

impl<T, C: LosslessCodec<Value = T>> LosslessReplicable for CodecRep<T, C> {
    open spec fn fits(self) -> bool {
        C::fits(self.data())
    }

    proof fn law_round_trip(self, prior: C::Model, tail: Seq<u8>) {
        C::law_round_trip(self.data, tail);
    }
}

/// Two values that hash alike are not told apart: after a look at one, a look at the other finds
/// no change. After a look at one that hashes otherwise, it finds one.
pub proof fn law_change_is_another_hash<T: Replicable + Hash>(
    policy: HashRep,
    data: T,
    between: HashRep,
    first: bool,
    later: T,
    after: HashRep,
    second: bool,
)
    requires
        policy.detects(data, between, first),
        between.detects(later, after, second),
    ensures
        hashes_to(data, between.0),
        hashes_to(later, after.0),
        first == (policy.0 != between.0),
        second == (between.0 != after.0),
{
}

/// A value that is replicated by a codec is written, and read, as the codec has it.
pub proof fn law_codec_decides<T, C: Codec<Value = T>>(
    value: CodecRep<T, C>,
    prior: C::Model,
    bytes: Seq<u8>,
)
    ensures
        value.emit() == C::emit(value.data()),
        value.model() == C::model(value.data()),
        CodecRep::<T, C>::parse(prior, bytes) == Applied::replaced(prior, C::parse(bytes)),
        value == CodecRep::<T, C>::holding(value.data()),
{
}

/// A value whose policy is told of every change is written once, and again only after it was
/// handed out to be changed.
pub proof fn law_written_once_until_mutated<T: Replicable>(
    policy: MutRep,
    data: T,
    between: MutRep,
    first: bool,
    later: T,
    after: MutRep,
    second: bool,
)
    requires
        MutRep::default.ensures((), policy),
        policy.detects(data, between, first),
        between.detects(later, after, second),
    ensures
        first,
        !second,
        forall|last: MutRep, third: bool|
            #![trigger <MutRep as ReplicationPolicy<T>>::detects(
                <MutRep as ReplicationPolicy<T>>::mutated(after, later), later, last, third)]
            <MutRep as ReplicationPolicy<T>>::detects(
                <MutRep as ReplicationPolicy<T>>::mutated(after, later),
                later,
                last,
                third,
            ) ==> third,
{
}

/// A value with a manual policy is written once, and not again whatever is done to it.
pub proof fn law_written_once_until_marked<T: Replicable>(
    policy: ManRep,
    data: T,
    between: ManRep,
    first: bool,
    later: T,
    after: ManRep,
    second: bool,
)
    requires
        ManRep::default.ensures((), policy),
        policy.detects(data, between, first),
        <ManRep as ReplicationPolicy<T>>::detects(
            <ManRep as ReplicationPolicy<T>>::mutated(between, data),
            later,
            after,
            second,
        ),
    ensures
        first,
        !second,
{
}

/// A value behind a tag is written as the tag, the number of its bytes and its bytes; one that
/// cannot be written is not written at all.
pub proof fn law_tagged_values(tag: u8, content: Emitted)
    ensures
        content.error is None ==> emit_tagged(tag, content).bytes == seq![tag] + unsigned_bytes(
            content.bytes.len(),
        ) + content.bytes && emit_tagged(tag, content).error is None,
        content.error is Some ==> emit_tagged(tag, content).bytes.len() == 0 && emit_tagged(
            tag,
            content,
        ).error == content.error,
{
}

/// Behind another tag nothing is read and nothing is taken.
pub proof fn law_other_tags_are_left<T: Replicable>(tag: u8, prior: T::Model, bytes: Seq<u8>)
    ensures
        bytes.len() > 0 && bytes[0] != tag ==> parse_tagged::<T>(tag, prior, bytes) == (Applied {
            model: prior,
            error: None,
            consumed: 0,
        }),
        bytes.len() == 0 ==> parse_tagged::<T>(tag, prior, bytes).model == prior
            && parse_tagged::<T>(tag, prior, bytes).error == Some(Error::UnexpectedEof),
{
}

} // verus!
