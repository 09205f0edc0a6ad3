//! Calls to procedures on other machines.

use std::marker::PhantomData;
use vstd::prelude::*;
use vstd::utf8::{decode_utf8, encode_utf8, valid_utf8};

use crate::buffer::Buffer;
use crate::codec::containers::array_from_vec;
use crate::codec::string::{big_endian, reversed};
use crate::codec::{Codec, LosslessCodec};
use crate::endian::{
    from_little_endian, lemma_byte_powers, lemma_little_endian, little_endian, little_endian_value,
    to_little_endian,
};
use crate::error::Error;
use crate::primitive::{block_to_string, parse_byte, read_byte};
use crate::wire::{failure, Emitted, Parsed};

verus! {

/// Tells calls apart.
#[derive(Debug, Clone, Copy, PartialEq, Eq, PartialOrd, Ord, Hash)]
pub struct Guid(pub [u8; 16]);

impl View for Guid {
    type V = Seq<u8>;

    open spec fn view(&self) -> Seq<u8> {
        self.0@
    }
}

/// `typid::ID::default`, as bytes: a fresh random id. Nothing is claimed of it.
#[verifier::external_body]
fn random_bytes() -> (result: [u8; 16]) {
    *typid::ID::<()>::default().uuid().as_bytes()
}

impl Guid {
    /// Whether the id was drawn at random.
    pub closed spec fn drawn(self) -> bool {
        call_ensures(random_bytes, (), self.0)
    }

    /// A fresh id, picked at random.
    pub fn random() -> (result: Self)
        ensures
            result.drawn(),
    {
        Guid(random_bytes())
    }
}

/// The length of text, in two bytes.
pub open spec fn length_bytes(highest_first: bool, length: nat) -> Seq<u8> {
    if highest_first {
        big_endian(length, 2)
    } else {
        little_endian(length, 2)
    }
}

/// The length that two bytes stand for.
pub open spec fn length_value(highest_first: bool, bytes: Seq<u8>) -> nat {
    if highest_first {
        little_endian_value(bytes.reverse())
    } else {
        little_endian_value(bytes)
    }
}

/// The name of a procedure behind its length.
pub open spec fn procedure_bytes(highest_first: bool, procedure: Seq<char>) -> Seq<u8> {
    length_bytes(highest_first, encode_utf8(procedure).len()) + encode_utf8(procedure)
}

/// What reading the name of a procedure gives.
pub open spec fn parse_procedure(highest_first: bool, bytes: Seq<u8>) -> Parsed<Seq<char>> {
    if bytes.len() < 2 {
        Parsed::eof(bytes)
    } else {
        let length = length_value(highest_first, bytes.take(2));
        if bytes.len() < 2 + length {
            Parsed::eof(bytes)
        } else {
            let content = bytes.subrange(2, 2 + length as int);
            Parsed {
                result: if valid_utf8(content) {
                    Ok(decode_utf8(content))
                } else {
                    Err(Error::InvalidUtf8)
                },
                consumed: 2 + length,
            }
        }
    }
}

/// What reading an id gives.
pub open spec fn parse_guid(bytes: Seq<u8>) -> Parsed<Seq<u8>> {
    if bytes.len() < 16 {
        Parsed::eof(bytes)
    } else {
        Parsed { result: Ok(bytes.take(16)), consumed: 16 }
    }
}

/// The length that was written is read.
proof fn lemma_length_round_trip(highest_first: bool, length: nat)
    requires
        length < 0x1_0000,
    ensures
        length_bytes(highest_first, length).len() == 2,
        length_value(highest_first, length_bytes(highest_first, length)) == length,
{
    lemma_byte_powers();
    lemma_little_endian(length, 2);
    assert(big_endian(length, 2).reverse() =~= little_endian(length, 2));
}

/// Reading gives back the name that was written, and takes exactly its bytes.
pub proof fn law_procedure_round_trip(highest_first: bool, procedure: Seq<char>, tail: Seq<u8>)
    requires
        encode_utf8(procedure).len() < 0x1_0000,
    ensures
        parse_procedure(highest_first, procedure_bytes(highest_first, procedure) + tail) == (
        Parsed {
            result: Ok::<Seq<char>, Error>(procedure),
            consumed: procedure_bytes(highest_first, procedure).len(),
        }),
{
    let content = encode_utf8(procedure);
    let length = length_bytes(highest_first, content.len());
    let all = procedure_bytes(highest_first, procedure) + tail;
    lemma_length_round_trip(highest_first, content.len());
    assert(all.take(2) =~= length);
    assert(all.subrange(2, 2 + content.len() as int) =~= content);
    vstd::utf8::encode_utf8_valid_utf8(procedure);
    vstd::utf8::encode_utf8_decode_utf8(procedure);
}

/// Writes the name of a procedure behind its length.
pub fn write_procedure(buffer: &mut Buffer, highest_first: bool, procedure: &String)
    ensures
        final(buffer)@ == old(buffer)@.written(procedure_bytes(highest_first, procedure@)),
{
    let ghost before = buffer@;
    let content = procedure.as_str().as_bytes();
    let length = to_little_endian(content.len() as u128, 2);
    if highest_first {
        buffer.write_all(reversed(&length).as_slice());
    } else {
        buffer.write_all(length.as_slice());
    }
    buffer.write_all(content);
    proof {
        before.lemma_written_twice(length_bytes(highest_first, content@.len()), content@);
    }
}

/// Reads the name of a procedure behind its length.
pub fn read_procedure(buffer: &mut Buffer, highest_first: bool) -> (result: Result<String, Error>)
    ensures
        match result {
            Ok(procedure) => parse_procedure(highest_first, old(buffer)@.rest).result == Ok::<
                Seq<char>,
                Error,
            >(procedure@),
            Err(error) => parse_procedure(highest_first, old(buffer)@.rest).result == Err::<
                Seq<char>,
                Error,
            >(error),
        },
        final(buffer)@ == old(buffer)@.advanced(
            parse_procedure(highest_first, old(buffer)@.rest).consumed,
        ),
{
    let ghost before = buffer@;
    match buffer.read_exact(2) {
        Err(error) => Err(error),
        Ok(length) => {
            let count: u64 = if highest_first {
                from_little_endian(reversed(&length).as_slice())
            } else {
                from_little_endian(length.as_slice())
            };
            let ghost between = buffer@;
            let content = buffer.read_exact(count);
            proof {
                assert(between.rest =~= before.rest.skip(2));
                before.lemma_advanced_twice(2, count as nat);
                if 2 + count <= before.rest.len() {
                    assert(between.rest.take(count as int) =~= before.rest.subrange(
                        2,
                        2 + count as int,
                    ));
                } else {
                    assert(buffer@ =~= before.advanced(before.rest.len()));
                }
            }
            match content {
                Ok(block) => block_to_string(block),
                Err(error) => Err(error),
            }
        },
    }
}

/// Writes an id.
pub fn write_guid(buffer: &mut Buffer, guid: &Guid)
    ensures
        final(buffer)@ == old(buffer)@.written(guid@),
{
    buffer.write_all(guid.0.as_slice());
}

/// Reads an id.
pub fn read_guid(buffer: &mut Buffer) -> (result: Result<Guid, Error>)
    ensures
        match result {
            Ok(guid) => parse_guid(old(buffer)@.rest).result == Ok::<Seq<u8>, Error>(guid@),
            Err(error) => parse_guid(old(buffer)@.rest).result == Err::<Seq<u8>, Error>(error),
        },
        final(buffer)@ == old(buffer)@.advanced(parse_guid(old(buffer)@.rest).consumed),
{
    match buffer.read_exact(16) {
        Ok(bytes) => Ok(Guid(array_from_vec(bytes))),
        Err(error) => Err(error),
    }
}

/// A procedure that is to be called.
#[verifier::reject_recursive_types(Input)]
pub struct RpcRequest<Input: Codec> {
    pub guid: Guid,
    pub procedure: String,
    pub input: Input::Value,
}

/// What a procedure gave.
#[verifier::reject_recursive_types(Output)]
pub struct RpcResponse<Output: Codec> {
    pub guid: Guid,
    pub output: Output::Value,
}

/// A call of a procedure on another machine, or what came of it.
#[verifier::reject_recursive_types(Output)]
#[verifier::reject_recursive_types(Input)]
pub enum Rpc<Output: Codec, Input: Codec> {
    Request(RpcRequest<Input>),
    Response(RpcResponse<Output>),
}

/// What an [`Rpc`] says.
#[verifier::ext_equal]
pub enum RpcView<O, I> {
    Request { guid: Seq<u8>, procedure: Seq<char>, input: I },
    Response { guid: Seq<u8>, output: O },
}

impl<Output: Codec, Input: Codec> Rpc<Output, Input> {
    /// What the call says.
    pub open spec fn says(self) -> RpcView<Output::Model, Input::Model> {
        match self {
            Rpc::Request(request) => RpcView::Request {
                guid: request.guid@,
                procedure: request.procedure@,
                input: Input::model(request.input),
            },
            Rpc::Response(response) => RpcView::Response {
                guid: response.guid@,
                output: Output::model(response.output),
            },
        }
    }

    /// What writing the call comes to.
    pub open spec fn emit(self) -> Emitted {
        match self {
            Rpc::Request(request) => Emitted::of(
                seq![0u8] + request.guid@ + procedure_bytes(true, request.procedure@),
            ).followed_by(Input::emit(request.input)),
            Rpc::Response(response) => Emitted::of(seq![1u8] + response.guid@).followed_by(
                Output::emit(response.output),
            ),
        }
    }

    /// What reading a request behind its first byte gives.
    pub open spec fn parse_request(bytes: Seq<u8>) -> Parsed<
        RpcView<Output::Model, Input::Model>,
    > {
        let guid = parse_guid(bytes);
        let procedure = parse_procedure(true, bytes.skip(16));
        let input = Input::parse(bytes.skip(16 + procedure.consumed as int));
        match guid.result {
            Err(error) => Parsed { result: Err(error), consumed: guid.consumed },
            Ok(id) => match procedure.result {
                Err(error) => Parsed { result: Err(error), consumed: 16 + procedure.consumed },
                Ok(name) => Parsed {
                    result: match input.result {
                        Ok(model) => Ok(
                            RpcView::Request { guid: id, procedure: name, input: model },
                        ),
                        Err(error) => Err(error),
                    },
                    consumed: 16 + procedure.consumed + input.consumed,
                },
            },
        }
    }

    /// What reading a response behind its first byte gives.
    pub open spec fn parse_response(bytes: Seq<u8>) -> Parsed<
        RpcView<Output::Model, Input::Model>,
    > {
        let guid = parse_guid(bytes);
        let output = Output::parse(bytes.skip(16));
        match guid.result {
            Err(error) => Parsed { result: Err(error), consumed: guid.consumed },
            Ok(id) => Parsed {
                result: match output.result {
                    Ok(model) => Ok(RpcView::Response { guid: id, output: model }),
                    Err(error) => Err(error),
                },
                consumed: 16 + output.consumed,
            },
        }
    }

    /// What reading a call gives.
    pub open spec fn parse(bytes: Seq<u8>) -> Parsed<RpcView<Output::Model, Input::Model>> {
        let kind = parse_byte(bytes);
        match kind.result {
            Err(error) => Parsed { result: Err(error), consumed: kind.consumed },
            Ok(tag) => if tag == 0 {
                let request = Self::parse_request(bytes.skip(1));
                Parsed { result: request.result, consumed: 1 + request.consumed }
            } else if tag == 1 {
                let response = Self::parse_response(bytes.skip(1));
                Parsed { result: response.result, consumed: 1 + response.consumed }
            } else {
                Parsed { result: Err(Error::UnknownRpcKind), consumed: 1 }
            },
        }
    }

    /// A request under a fresh id.
    pub fn new(procedure: String, input: Input::Value) -> (result: Self)
        ensures
            result matches Rpc::Request(request) && request.procedure@ == procedure@
                && request.input == input && request.guid.drawn(),
    {
        Rpc::Request(RpcRequest { guid: Guid::random(), procedure, input })
    }

    pub fn is_request(&self) -> (result: bool)
        ensures
            result == (*self is Request),
    {
        match self {
            Rpc::Request(_) => true,
            Rpc::Response(_) => false,
        }
    }

    pub fn is_response(&self) -> (result: bool)
        ensures
            result == (*self is Response),
    {
        match self {
            Rpc::Request(_) => false,
            Rpc::Response(_) => true,
        }
    }

    pub fn guid(&self) -> (result: Guid)
        ensures
            result == (match *self {
                Rpc::Request(request) => request.guid,
                Rpc::Response(response) => response.guid,
            }),
    {
        match self {
            Rpc::Request(request) => request.guid,
            Rpc::Response(response) => response.guid,
        }
    }

    /// The procedure that is to be called, if this is a request.
    pub fn procedure(&self) -> (result: Option<&str>)
        ensures
            match *self {
                Rpc::Request(request) => result matches Some(name) && name@
                    == request.procedure@,
                Rpc::Response(_) => result is None,
            },
    {
        match self {
            Rpc::Request(request) => Some(request.procedure.as_str()),
            Rpc::Response(_) => None,
        }
    }

    /// Writes the call at the cursor.
    pub fn encode(self, buffer: &mut Buffer) -> (result: Result<(), Error>)
        ensures
            final(buffer)@ == old(buffer)@.written(self.emit().bytes),
            failure(result) == self.emit().error,
    {
        let ghost before = buffer@;
        match self {
            Rpc::Request(request) => {
                buffer.write_byte(0);
                write_guid(buffer, &request.guid);
                write_procedure(buffer, true, &request.procedure);
                proof {
                    let name = procedure_bytes(true, request.procedure@);
                    let head = seq![0u8] + request.guid@;
                    before.lemma_written_twice(seq![0u8], request.guid@);
                    before.lemma_written_twice(head, name);
                    before.lemma_written_twice(head + name, Input::emit(request.input).bytes);
                }
                Input::encode(&request.input, buffer)
            },
            Rpc::Response(response) => {
                buffer.write_byte(1);
                write_guid(buffer, &response.guid);
                proof {
                    let head = seq![1u8] + response.guid@;
                    before.lemma_written_twice(seq![1u8], response.guid@);
                    before.lemma_written_twice(head, Output::emit(response.output).bytes);
                }
                Output::encode(&response.output, buffer)
            },
        }
    }

    /// Reads a request behind its first byte.
    fn decode_request(buffer: &mut Buffer) -> (result: Result<Self, Error>)
        ensures
            match result {
                Ok(rpc) => Self::parse_request(old(buffer)@.rest).result == Ok::<
                    RpcView<Output::Model, Input::Model>,
                    Error,
                >(rpc.says()),
                Err(error) => Self::parse_request(old(buffer)@.rest).result == Err::<
                    RpcView<Output::Model, Input::Model>,
                    Error,
                >(error),
            },
            final(buffer)@ == old(buffer)@.advanced(
                Self::parse_request(old(buffer)@.rest).consumed,
            ),
    {
        let ghost before = buffer@;
        let ghost name = parse_procedure(true, before.rest.skip(16));
        proof {
            before.lemma_advanced_twice(16, name.consumed);
            before.lemma_advanced_twice(
                16 + name.consumed,
                Input::parse(before.rest.skip(16 + name.consumed as int)).consumed,
            );
        }
        match read_guid(buffer) {
            Err(error) => Err(error),
            Ok(guid) => {
                assert(buffer@.rest =~= before.rest.skip(16));
                match read_procedure(buffer, true) {
                    Err(error) => Err(error),
                    Ok(procedure) => {
                        assert(buffer@.rest =~= before.rest.skip(16 + name.consumed as int));
                        match Input::decode(buffer) {
                            Ok(input) => Ok(
                                Rpc::Request(RpcRequest { guid, procedure, input }),
                            ),
                            Err(error) => Err(error),
                        }
                    },
                }
            },
        }
    }

    /// Reads a response behind its first byte.
    fn decode_response(buffer: &mut Buffer) -> (result: Result<Self, Error>)
        ensures
            match result {
                Ok(rpc) => Self::parse_response(old(buffer)@.rest).result == Ok::<
                    RpcView<Output::Model, Input::Model>,
                    Error,
                >(rpc.says()),
                Err(error) => Self::parse_response(old(buffer)@.rest).result == Err::<
                    RpcView<Output::Model, Input::Model>,
                    Error,
                >(error),
            },
            final(buffer)@ == old(buffer)@.advanced(
                Self::parse_response(old(buffer)@.rest).consumed,
            ),
    {
        let ghost before = buffer@;
        proof {
            before.lemma_advanced_twice(16, Output::parse(before.rest.skip(16)).consumed);
        }
        match read_guid(buffer) {
            Err(error) => Err(error),
            Ok(guid) => {
                assert(buffer@.rest =~= before.rest.skip(16));
                match Output::decode(buffer) {
                    Ok(output) => Ok(Rpc::Response(RpcResponse { guid, output })),
                    Err(error) => Err(error),
                }
            },
        }
    }

    /// Reads a call from the cursor on.
    pub fn decode(buffer: &mut Buffer) -> (result: Result<Self, Error>)
        ensures
            match result {
                Ok(rpc) => Self::parse(old(buffer)@.rest).result == Ok::<
                    RpcView<Output::Model, Input::Model>,
                    Error,
                >(rpc.says()),
                Err(error) => Self::parse(old(buffer)@.rest).result == Err::<
                    RpcView<Output::Model, Input::Model>,
                    Error,
                >(error),
            },
            final(buffer)@ == old(buffer)@.advanced(Self::parse(old(buffer)@.rest).consumed),
    {
        let ghost before = buffer@;
        proof {
            before.lemma_advanced_twice(1, Self::parse_request(before.rest.skip(1)).consumed);
            before.lemma_advanced_twice(1, Self::parse_response(before.rest.skip(1)).consumed);
        }
        match read_byte(buffer) {
            Err(error) => Err(error),
            Ok(kind) => {
                assert(buffer@.rest =~= before.rest.skip(1));
                if kind == 0 {
                    Self::decode_request(buffer)
                } else if kind == 1 {
                    Self::decode_response(buffer)
                } else {
                    Err(Error::UnknownRpcKind)
                }
            },
        }
    }

    /// Splits a request into the call, which can be answered, and its input.
    pub fn call(self) -> (result: Result<(RpcCall<Output, Input>, Input::Value), Error>)
        ensures
            match self {
                Rpc::Request(request) => {
                    &&& result matches Ok(parts)
                    &&& parts.0.guid == request.guid
                    &&& parts.0.procedure@ == request.procedure@
                    &&& parts.1 == request.input
                },
                Rpc::Response(_) => failure(result) == Some(Error::NotARequest),
            },
    {
        match self {
            Rpc::Request(request) => Ok(
                (
                    RpcCall {
                        guid: request.guid,
                        procedure: request.procedure,
                        marker: PhantomData,
                    },
                    request.input,
                ),
            ),
            Rpc::Response(_) => Err(Error::NotARequest),
        }
    }

    /// What the procedure gave, if this is a response.
    pub fn result(self) -> (result: Result<Output::Value, Error>)
        ensures
            match self {
                Rpc::Response(response) => result == Ok::<Output::Value, Error>(response.output),
                Rpc::Request(_) => failure(result) == Some(Error::NotAResponse),
            },
    {
        match self {
            Rpc::Response(response) => Ok(response.output),
            Rpc::Request(_) => Err(Error::NotAResponse),
        }
    }
}

impl<Output: LosslessCodec, Input: LosslessCodec> Rpc<Output, Input> {
    /// Whether the call survives the way over the wire.
    pub open spec fn fits(self) -> bool {
        match self {
            Rpc::Request(request) => encode_utf8(request.procedure@).len() < 0x1_0000
                && Input::fits(request.input),
            Rpc::Response(response) => Output::fits(response.output),
        }
    }

    /// Reading gives back the call that was written, and takes exactly its bytes.
    pub proof fn law_round_trip(self, tail: Seq<u8>)
        requires
            self.fits(),
            self.emit().error is None,
        ensures
            Self::parse(self.emit().bytes + tail) == (Parsed {
                result: Ok::<RpcView<Output::Model, Input::Model>, Error>(self.says()),
                consumed: self.emit().bytes.len(),
            }),
    {
        let all = self.emit().bytes + tail;
        match self {
            Rpc::Request(request) => {
                let name = procedure_bytes(true, request.procedure@);
                let body = Input::emit(request.input).bytes;
                Input::law_round_trip(request.input, tail);
                law_procedure_round_trip(true, request.procedure@, body + tail);
                let rest = all.skip(1);
                assert(rest =~= request.guid@ + (name + (body + tail)));
                assert(rest.take(16) =~= request.guid@);
                assert(rest.skip(16) =~= name + (body + tail));
                assert(rest.skip(16 + name.len() as int) =~= body + tail);
            },
            Rpc::Response(response) => {
                let body = Output::emit(response.output).bytes;
                Output::law_round_trip(response.output, tail);
                let rest = all.skip(1);
                assert(rest =~= response.guid@ + (body + tail));
                assert(rest.take(16) =~= response.guid@);
                assert(rest.skip(16) =~= body + tail);
            },
        }
    }
}

/// A request that waits for its response.
#[verifier::reject_recursive_types(Output)]
#[verifier::reject_recursive_types(Input)]
pub struct RpcCall<Output: Codec, Input: Codec> {
    pub guid: Guid,
    pub procedure: String,
    pub marker: PhantomData<(Output, Input)>,
}

impl<Output: Codec, Input: Codec> RpcCall<Output, Input> {
    pub fn guid(&self) -> (result: Guid)
        ensures
            result == self.guid,
    {
        self.guid
    }

    pub fn procedure(&self) -> (result: &str)
        ensures
            result@ == self.procedure@,
    {
        self.procedure.as_str()
    }

    /// The response to the request, under the same id.
    pub fn respond(self, output: Output::Value) -> (result: Rpc<Output, Input>)
        ensures
            result == Rpc::<Output, Input>::Response(RpcResponse { guid: self.guid, output }),
    {
        Rpc::Response(RpcResponse { guid: self.guid, output })
    }
}

/// How calls look: a byte for request or response, the number of the call, for requests the name
/// of the procedure with its length in two bytes in front, and then the input or the output.
pub proof fn law_calls_on_the_wire<Output: Codec, Input: Codec>(
    request: RpcRequest<Input>,
    response: RpcResponse<Output>,
)
    ensures
        ({
            let name = encode_utf8(request.procedure@);
            let asked = Rpc::<Output, Input>::Request(request).emit();
            &&& asked.bytes == seq![0u8] + request.guid@ + big_endian(name.len(), 2) + name
                + Input::emit(request.input).bytes
            &&& asked.error == Input::emit(request.input).error
        }),
        ({
            let answered = Rpc::<Output, Input>::Response(response).emit();
            &&& answered.bytes == seq![1u8] + response.guid@ + Output::emit(response.output).bytes
            &&& answered.error == Output::emit(response.output).error
        }),
{
    let name = encode_utf8(request.procedure@);
    assert(Rpc::<Output, Input>::Request(request).emit().bytes =~= seq![0u8] + request.guid@
        + big_endian(name.len(), 2) + name + Input::emit(request.input).bytes);
}

/// The number of bytes of a name has its high byte first or last, as is asked for.
pub proof fn law_length_in_two_bytes(length: nat)
    requires
        length < 0x1_0000,
    ensures
        length_bytes(true, length) == seq![(length / 256) as u8, (length % 256) as u8],
        length_bytes(false, length) == seq![(length % 256) as u8, (length / 256) as u8],
{
    reveal_with_fuel(little_endian, 3);
    assert((length / 256) % 256 == length / 256);
    assert(length_bytes(false, length) =~= seq![(length % 256) as u8, (length / 256) as u8]);
    assert(length_bytes(true, length) =~= seq![(length / 256) as u8, (length % 256) as u8]);
}

/// Bytes that begin as no call does are refused.
pub proof fn law_unknown_calls_are_refused<Output: Codec, Input: Codec>(bytes: Seq<u8>)
    ensures
        bytes.len() == 0 ==> Rpc::<Output, Input>::parse(bytes).result == Err::<
            RpcView<Output::Model, Input::Model>,
            Error,
        >(Error::UnexpectedEof),
        bytes.len() > 0 && bytes[0] > 1 ==> Rpc::<Output, Input>::parse(bytes).result == Err::<
            RpcView<Output::Model, Input::Model>,
            Error,
        >(Error::UnknownRpcKind),
        0 < bytes.len() < 17 && bytes[0] <= 1 ==> Rpc::<Output, Input>::parse(bytes).result == Err::<
            RpcView<Output::Model, Input::Model>,
            Error,
        >(Error::UnexpectedEof),
{
}

} // verus!
