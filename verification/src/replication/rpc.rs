//! Calls to procedures on other machines, for replicas.

use std::marker::PhantomData;
use vstd::prelude::*;
use vstd::utf8::encode_utf8;

use crate::buffer::Buffer;
use crate::codec::{Codec, LosslessCodec};
use crate::endian::{
    law_little_endian_round_trip, lemma_byte_powers, lemma_little_endian, little_endian,
    write_little_endian,
};
use crate::error::Error;
use crate::primitive::{parse_byte, read_byte};
use crate::protocol::{parse_number, read_number};
use crate::rpc::{
    law_procedure_round_trip, parse_guid, parse_procedure, procedure_bytes, read_guid,
    read_procedure, write_guid, write_procedure, Guid,
};
use crate::wire::{failure, Emitted, Parsed};

verus! {

/// What stands in front of the content of a call.
#[verifier::ext_equal]
pub struct HeadView {
    /// Zero for a request, one for a response.
    pub kind: u8,
    pub type_hash: u64,
    pub guid: Seq<u8>,
    pub procedure: Seq<char>,
}

impl HeadView {
    /// The bytes of the head.
    pub open spec fn bytes(self) -> Seq<u8> {
        seq![self.kind] + little_endian(self.type_hash as nat, 8) + self.guid + procedure_bytes(
            false,
            self.procedure,
        )
    }

    /// What reading the rest of a head gives, once its kind and type are known.
    pub open spec fn parse_rest(kind: u8, type_hash: u64, bytes: Seq<u8>) -> Parsed<HeadView> {
        let guid = parse_guid(bytes);
        let procedure = parse_procedure(false, bytes.skip(16));
        match guid.result {
            Err(error) => Parsed { result: Err(error), consumed: guid.consumed },
            Ok(id) => Parsed {
                result: match procedure.result {
                    Ok(name) => Ok(HeadView { kind, type_hash, guid: id, procedure: name }),
                    Err(error) => Err(error),
                },
                consumed: 16 + procedure.consumed,
            },
        }
    }

    /// What reading a head gives. If it has to be about types in particular, others are refused
    /// as soon as they are met.
    pub open spec fn parse(expected: Option<u64>, bytes: Seq<u8>) -> Parsed<HeadView> {
        let kind = parse_byte(bytes);
        let type_hash = parse_number(bytes.skip(1));
        match kind.result {
            Err(error) => Parsed { result: Err(error), consumed: kind.consumed },
            Ok(tag) => if tag > 1 {
                Parsed { result: Err(Error::UnknownRpcKind), consumed: 1 }
            } else {
                match type_hash.result {
                    Err(error) => Parsed { result: Err(error), consumed: 1 + type_hash.consumed },
                    Ok(number) => if expected is Some && expected != Some(number) {
                        Parsed { result: Err(Error::RpcTypeMismatch), consumed: 9 }
                    } else {
                        let rest = Self::parse_rest(tag, number, bytes.skip(9));
                        Parsed { result: rest.result, consumed: 9 + rest.consumed }
                    },
                }
            },
        }
    }

    /// Reading takes no more bytes than there are.
    pub proof fn lemma_parse_is_within(expected: Option<u64>, bytes: Seq<u8>)
        ensures
            Self::parse(expected, bytes).consumed <= bytes.len(),
    {
    }

    /// Reading gives back the head that was written, and takes exactly its bytes.
    pub proof fn law_round_trip(self, expected: Option<u64>, tail: Seq<u8>)
        requires
            self.kind <= 1,
            self.guid.len() == 16,
            encode_utf8(self.procedure).len() < 0x1_0000,
            expected is None || expected == Some(self.type_hash),
        ensures
            Self::parse(expected, self.bytes() + tail) == (Parsed {
                result: Ok::<HeadView, Error>(self),
                consumed: self.bytes().len(),
            }),
    {
        let all = self.bytes() + tail;
        let hash = little_endian(self.type_hash as nat, 8);
        let name = procedure_bytes(false, self.procedure);
        lemma_byte_powers();
        lemma_little_endian(self.type_hash as nat, 8);
        law_little_endian_round_trip(self.type_hash as nat, 8, self.guid + (name + tail));
        law_procedure_round_trip(false, self.procedure, tail);
        assert(all.skip(1) =~= hash + (self.guid + (name + tail)));
        let rest = all.skip(9);
        assert(rest =~= self.guid + (name + tail));
        assert(rest.take(16) =~= self.guid);
        assert(rest.skip(16) =~= name + tail);
    }
}

/// What stands in front of the content of a call.
struct Head {
    kind: u8,
    type_hash: u64,
    guid: Guid,
    procedure: String,
}

impl View for Head {
    type V = HeadView;

    closed spec fn view(&self) -> HeadView {
        HeadView {
            kind: self.kind,
            type_hash: self.type_hash,
            guid: self.guid@,
            procedure: self.procedure@,
        }
    }
}

/// Reads the rest of a head, once its kind and type are known.
fn read_head_rest(buffer: &mut Buffer, kind: u8, type_hash: u64) -> (result: Result<Head, Error>)
    ensures
        match result {
            Ok(head) => HeadView::parse_rest(kind, type_hash, old(buffer)@.rest).result == Ok::<
                HeadView,
                Error,
            >(head@),
            Err(error) => HeadView::parse_rest(kind, type_hash, old(buffer)@.rest).result == Err::<
                HeadView,
                Error,
            >(error),
        },
        final(buffer)@ == old(buffer)@.advanced(
            HeadView::parse_rest(kind, type_hash, old(buffer)@.rest).consumed,
        ),
{
    let ghost before = buffer@;
    proof {
        before.lemma_advanced_twice(
            16,
            parse_procedure(false, before.rest.skip(16)).consumed,
        );
    }
    match read_guid(buffer) {
        Err(error) => Err(error),
        Ok(guid) => {
            assert(buffer@.rest =~= before.rest.skip(16));
            match read_procedure(buffer, false) {
                Ok(procedure) => Ok(Head { kind, type_hash, guid, procedure }),
                Err(error) => Err(error),
            }
        },
    }
}

/// Reads a head.
fn read_head(buffer: &mut Buffer, expected: Option<u64>) -> (result: Result<Head, Error>)
    ensures
        match result {
            Ok(head) => HeadView::parse(expected, old(buffer)@.rest).result == Ok::<
                HeadView,
                Error,
            >(head@),
            Err(error) => HeadView::parse(expected, old(buffer)@.rest).result == Err::<
                HeadView,
                Error,
            >(error),
        },
        final(buffer)@ == old(buffer)@.advanced(
            HeadView::parse(expected, old(buffer)@.rest).consumed,
        ),
{
    let ghost before = buffer@;
    let kind: u8 = match read_byte(buffer) {
        Ok(kind) => kind,
        Err(error) => return Err(error),
    };
    if kind > 1 {
        return Err(Error::UnknownRpcKind);
    }
    assert(buffer@.rest =~= before.rest.skip(1));
    proof {
        before.lemma_advanced_twice(1, parse_number(before.rest.skip(1)).consumed);
    }
    let type_hash: u64 = match read_number(buffer) {
        Ok(type_hash) => type_hash,
        Err(error) => return Err(error),
    };
    if let Some(number) = expected {
        if number != type_hash {
            return Err(Error::RpcTypeMismatch);
        }
    }
    assert(buffer@.rest =~= before.rest.skip(9));
    proof {
        before.lemma_advanced_twice(
            9,
            HeadView::parse_rest(kind, type_hash, before.rest.skip(9)).consumed,
        );
    }
    read_head_rest(buffer, kind, type_hash)
}

/// Writes a head.
fn write_head(buffer: &mut Buffer, kind: u8, type_hash: u64, guid: &Guid, procedure: &String)
    ensures
        final(buffer)@ == old(buffer)@.written(
            (HeadView { kind, type_hash, guid: guid@, procedure: procedure@ }).bytes(),
        ),
{
    let ghost before = buffer@;
    buffer.write_byte(kind);
    write_little_endian(buffer, type_hash as u128, 8);
    write_guid(buffer, guid);
    write_procedure(buffer, false, procedure);
    proof {
        let hash = little_endian(type_hash as nat, 8);
        let name = procedure_bytes(false, procedure@);
        before.lemma_written_twice(seq![kind], hash);
        before.lemma_written_twice(seq![kind] + hash, guid@);
        before.lemma_written_twice(seq![kind] + hash + guid@, name);
    }
}

/// A procedure that is to be called.
#[verifier::reject_recursive_types(Input)]
pub struct RpcRequest<Input: Codec> {
    pub type_hash: u64,
    pub guid: Guid,
    pub procedure: String,
    pub input: Input::Value,
}

/// What a procedure gave.
#[verifier::reject_recursive_types(Output)]
pub struct RpcResponse<Output: Codec> {
    pub type_hash: u64,
    pub guid: Guid,
    pub procedure: String,
    pub output: Output::Value,
}

/// A call of a procedure on another machine, or what came of it. `TYPE_HASH` tells the types of
/// input and output apart from others.
#[verifier::reject_recursive_types(Output)]
#[verifier::reject_recursive_types(Input)]
pub enum Rpc<Output: Codec, Input: Codec, const TYPE_HASH: u64> {
    Request(RpcRequest<Input>),
    Response(RpcResponse<Output>),
}

/// What an [`Rpc`] carries.
#[verifier::ext_equal]
pub enum RpcContent<O, I> {
    Input(I),
    Output(O),
}

/// What an [`Rpc`] says.
#[verifier::ext_equal]
pub struct RpcView<O, I> {
    pub head: HeadView,
    pub content: RpcContent<O, I>,
}

impl<Output: Codec, Input: Codec, const TYPE_HASH: u64> Rpc<Output, Input, TYPE_HASH> {
    /// The head of the call.
    pub open spec fn head(self) -> HeadView {
        match self {
            Rpc::Request(request) => HeadView {
                kind: 0,
                type_hash: request.type_hash,
                guid: request.guid@,
                procedure: request.procedure@,
            },
            Rpc::Response(response) => HeadView {
                kind: 1,
                type_hash: response.type_hash,
                guid: response.guid@,
                procedure: response.procedure@,
            },
        }
    }

    /// What writing the content of the call comes to.
    pub open spec fn emit_content(self) -> Emitted {
        match self {
            Rpc::Request(request) => Input::emit(request.input),
            Rpc::Response(response) => Output::emit(response.output),
        }
    }

    /// What reading the content behind a head gives.
    pub open spec fn parse_content(head: HeadView, bytes: Seq<u8>) -> Parsed<
        RpcView<Output::Model, Input::Model>,
    > {
        if head.kind == 0 {
            let input = Input::parse(bytes);
            Parsed {
                result: match input.result {
                    Ok(model) => Ok(RpcView { head, content: RpcContent::Input(model) }),
                    Err(error) => Err(error),
                },
                consumed: input.consumed,
            }
        } else {
            let output = Output::parse(bytes);
            Parsed {
                result: match output.result {
                    Ok(model) => Ok(RpcView { head, content: RpcContent::Output(model) }),
                    Err(error) => Err(error),
                },
                consumed: output.consumed,
            }
        }
    }

    /// Reads the content behind a head.
    fn read_content(buffer: &mut Buffer, head: Head) -> (result: Result<Self, Error>)
        requires
            head@.kind <= 1,
        ensures
            match result {
                Ok(rpc) => Self::parse_content(head@, old(buffer)@.rest).result == Ok::<
                    RpcView<Output::Model, Input::Model>,
                    Error,
                >(Self::model(rpc)),
                Err(error) => Self::parse_content(head@, old(buffer)@.rest).result == Err::<
                    RpcView<Output::Model, Input::Model>,
                    Error,
                >(error),
            },
            final(buffer)@ == old(buffer)@.advanced(
                Self::parse_content(head@, old(buffer)@.rest).consumed,
            ),
    {
        let Head { kind, type_hash, guid, procedure } = head;
        if kind == 0 {
            match Input::decode(buffer) {
                Ok(input) => Ok(
                    Rpc::Request(RpcRequest { type_hash, guid, procedure, input }),
                ),
                Err(error) => Err(error),
            }
        } else {
            match Output::decode(buffer) {
                Ok(output) => Ok(
                    Rpc::Response(RpcResponse { type_hash, guid, procedure, output }),
                ),
                Err(error) => Err(error),
            }
        }
    }

    /// A request under a fresh id.
    pub fn new(procedure: String, input: Input::Value) -> (result: Self)
        ensures
            result matches Rpc::Request(request) && request.type_hash == TYPE_HASH
                && request.procedure@ == procedure@ && request.input == input
                && request.guid.drawn(),
    {
        Rpc::Request(
            RpcRequest { type_hash: TYPE_HASH, guid: Guid::random(), procedure, input },
        )
    }

    pub fn is_request(&self) -> (result: bool)
        ensures
            result == (*self is Request),
    {
        match self {
            Rpc::Request(_) => true,
            Rpc::Response(_) => false,
        }
    }

    pub fn is_response(&self) -> (result: bool)
        ensures
            result == (*self is Response),
    {
        match self {
            Rpc::Request(_) => false,
            Rpc::Response(_) => true,
        }
    }

    pub fn type_hash(&self) -> (result: u64)
        ensures
            result == self.head().type_hash,
    {
        match self {
            Rpc::Request(request) => request.type_hash,
            Rpc::Response(response) => response.type_hash,
        }
    }

    pub fn guid(&self) -> (result: Guid)
        ensures
            result@ == self.head().guid,
    {
        match self {
            Rpc::Request(request) => request.guid,
            Rpc::Response(response) => response.guid,
        }
    }

    pub fn procedure(&self) -> (result: &str)
        ensures
            result@ == self.head().procedure,
    {
        match self {
            Rpc::Request(request) => request.procedure.as_str(),
            Rpc::Response(response) => response.procedure.as_str(),
        }
    }

    /// Writes the call at the cursor.
    pub fn encode(self, buffer: &mut Buffer) -> (result: Result<(), Error>)
        ensures
            final(buffer)@ == old(buffer)@.written(<Self as Codec>::emit(self).bytes),
            failure(result) == <Self as Codec>::emit(self).error,
    {
        <Self as Codec>::encode(&self, buffer)
    }

    /// Reads a call from the cursor on.
    pub fn decode(buffer: &mut Buffer) -> (result: Result<Self, Error>)
        ensures
            final(buffer)@ == old(buffer)@.advanced(
                <Self as Codec>::parse(old(buffer)@.rest).consumed,
            ),
            match result {
                Ok(rpc) => <Self as Codec>::parse(old(buffer)@.rest).result == Ok::<
                    RpcView<Output::Model, Input::Model>,
                    Error,
                >(<Self as Codec>::model(rpc)),
                Err(error) => <Self as Codec>::parse(old(buffer)@.rest).result == Err::<
                    RpcView<Output::Model, Input::Model>,
                    Error,
                >(error),
            },
    {
        <Self as Codec>::decode(buffer)
    }

    /// Splits a request into the call, which can be answered, and its input.
    pub fn call(self) -> (result: Result<
        (RpcCall<Output, Input, TYPE_HASH>, Input::Value),
        Error,
    >)
        ensures
            match self {
                Rpc::Request(request) => {
                    &&& result matches Ok(parts)
                    &&& parts.0.type_hash == request.type_hash
                    &&& parts.0.guid == request.guid
                    &&& parts.0.procedure@ == request.procedure@
                    &&& parts.1 == request.input
                },
                Rpc::Response(_) => failure(result) == Some(Error::NotARequest),
            },
    {
        match self {
            Rpc::Request(request) => Ok(
                (
                    RpcCall {
                        type_hash: request.type_hash,
                        guid: request.guid,
                        procedure: request.procedure,
                        marker: PhantomData,
                    },
                    request.input,
                ),
            ),
            Rpc::Response(_) => Err(Error::NotARequest),
        }
    }

    /// What the procedure gave, if this is a response.
    pub fn result(self) -> (result: Result<Output::Value, Error>)
        ensures
            match self {
                Rpc::Response(response) => result == Ok::<Output::Value, Error>(response.output),
                Rpc::Request(_) => failure(result) == Some(Error::NotAResponse),
            },
    {
        match self {
            Rpc::Response(response) => Ok(response.output),
            Rpc::Request(_) => Err(Error::NotAResponse),
        }
    }
}

impl<Output: Codec, Input: Codec, const TYPE_HASH: u64> Codec for Rpc<Output, Input, TYPE_HASH> {
    type Value = Rpc<Output, Input, TYPE_HASH>;

    type Model = RpcView<Output::Model, Input::Model>;

    open spec fn model(value: Self) -> RpcView<Output::Model, Input::Model> {
        RpcView {
            head: value.head(),
            content: match value {
                Rpc::Request(request) => RpcContent::Input(Input::model(request.input)),
                Rpc::Response(response) => RpcContent::Output(Output::model(response.output)),
            },
        }
    }

    open spec fn emit(value: Self) -> Emitted {
        Emitted::of(value.head().bytes()).followed_by(value.emit_content())
    }

    open spec fn parse(bytes: Seq<u8>) -> Parsed<RpcView<Output::Model, Input::Model>> {
        let head = HeadView::parse(Some(TYPE_HASH), bytes);
        match head.result {
            Err(error) => Parsed { result: Err(error), consumed: head.consumed },
            Ok(known) => {
                let content = Self::parse_content(known, bytes.skip(head.consumed as int));
                Parsed { result: content.result, consumed: head.consumed + content.consumed }
            },
        }
    }

    proof fn parse_is_within(bytes: Seq<u8>) {
        let head = HeadView::parse(Some(TYPE_HASH), bytes);
        HeadView::lemma_parse_is_within(Some(TYPE_HASH), bytes);
        Input::parse_is_within(bytes.skip(head.consumed as int));
        Output::parse_is_within(bytes.skip(head.consumed as int));
    }

    fn encode(message: &Self, buffer: &mut Buffer) -> (result: Result<(), Error>) {
        let ghost before = buffer@;
        proof {
            before.lemma_written_twice(message.head().bytes(), message.emit_content().bytes);
        }
        match message {
            Rpc::Request(request) => {
                write_head(buffer, 0, request.type_hash, &request.guid, &request.procedure);
                Input::encode(&request.input, buffer)
            },
            Rpc::Response(response) => {
                write_head(buffer, 1, response.type_hash, &response.guid, &response.procedure);
                Output::encode(&response.output, buffer)
            },
        }
    }

    fn decode(buffer: &mut Buffer) -> (result: Result<Self, Error>) {
        let ghost before = buffer@;
        let ghost parsed = HeadView::parse(Some(TYPE_HASH), before.rest);
        match read_head(buffer, Some(TYPE_HASH)) {
            Err(error) => Err(error),
            Ok(head) => {
                proof {
                    HeadView::lemma_parse_is_within(Some(TYPE_HASH), before.rest);
                    before.lemma_advanced_twice(
                        parsed.consumed,
                        Self::parse_content(
                            head@,
                            before.rest.skip(parsed.consumed as int),
                        ).consumed,
                    );
                }
                assert(buffer@.rest =~= before.rest.skip(parsed.consumed as int));
                Self::read_content(buffer, head)
            },
        }
    }
}

impl<Output: LosslessCodec, Input: LosslessCodec, const TYPE_HASH: u64> LosslessCodec for Rpc<
    Output,
    Input,
    TYPE_HASH,
> {
    open spec fn fits(value: Self) -> bool {
        &&& value.head().type_hash == TYPE_HASH
        &&& encode_utf8(value.head().procedure).len() < 0x1_0000
        &&& match value {
            Rpc::Request(request) => Input::fits(request.input),
            Rpc::Response(response) => Output::fits(response.output),
        }
    }

    proof fn law_round_trip(value: Self, tail: Seq<u8>) {
        let head = value.head();
        let body = value.emit_content().bytes;
        let all = Self::emit(value).bytes + tail;
        head.law_round_trip(Some(TYPE_HASH), body + tail);
        assert(all =~= head.bytes() + (body + tail));
        assert(all.skip(head.bytes().len() as int) =~= body + tail);
        match value {
            Rpc::Request(request) => {
                Input::law_round_trip(request.input, tail);
            },
            Rpc::Response(response) => {
                Output::law_round_trip(response.output, tail);
            },
        }
    }
}

/// A call of which the head was read, to find out what it is about.
pub struct RpcPartialDecoder {
    head: Head,
    reader: Buffer,
}

impl RpcPartialDecoder {
    /// The head that was read.
    pub closed spec fn head(self) -> HeadView {
        self.head@
    }

    /// The bytes behind the head.
    pub closed spec fn rest(self) -> Seq<u8> {
        self.reader@.rest
    }

    /// Whether this is a request or a response.
    #[verifier::type_invariant]
    spec fn kind_is_known(self) -> bool {
        self.head.kind <= 1
    }

    /// Reads the head of a call.
    pub fn new(buffer: Vec<u8>) -> (result: Result<Self, Error>)
        ensures
            match result {
                Ok(decoder) => {
                    &&& HeadView::parse(None, buffer@).result == Ok::<HeadView, Error>(
                        decoder.head(),
                    )
                    &&& decoder.rest() == buffer@.skip(
                        HeadView::parse(None, buffer@).consumed as int,
                    )
                },
                Err(error) => HeadView::parse(None, buffer@).result == Err::<HeadView, Error>(
                    error,
                ),
            },
    {
        let ghost bytes = buffer@;
        let mut reader = Buffer::new(buffer);
        assert(reader@.rest =~= bytes);
        proof {
            HeadView::lemma_parse_is_within(None, bytes);
        }
        match read_head(&mut reader, None) {
            Ok(head) => Ok(RpcPartialDecoder { head, reader }),
            Err(error) => Err(error),
        }
    }

    /// Reads the content of the call.
    pub fn complete<Output: Codec, Input: Codec, const TYPE_HASH: u64>(self) -> (result: Result<
        Rpc<Output, Input, TYPE_HASH>,
        Error,
    >)
        ensures
            if self.head().type_hash != TYPE_HASH {
                failure(result) == Some(Error::RpcTypeMismatch)
            } else {
                match result {
                    Ok(rpc) => Rpc::<Output, Input, TYPE_HASH>::parse_content(
                        self.head(),
                        self.rest(),
                    ).result == Ok::<RpcView<Output::Model, Input::Model>, Error>(
                        Rpc::<Output, Input, TYPE_HASH>::model(rpc),
                    ),
                    Err(error) => Rpc::<Output, Input, TYPE_HASH>::parse_content(
                        self.head(),
                        self.rest(),
                    ).result == Err::<RpcView<Output::Model, Input::Model>, Error>(error),
                }
            },
    {
        proof {
            use_type_invariant(&self);
        }
        let RpcPartialDecoder { head, mut reader } = self;
        if head.type_hash != TYPE_HASH {
            return Err(Error::RpcTypeMismatch);
        }
        Rpc::read_content(&mut reader, head)
    }

    pub fn is_request(&self) -> (result: bool)
        ensures
            result == (self.head().kind == 0),
    {
        self.head.kind == 0
    }

    pub fn type_hash(&self) -> (result: u64)
        ensures
            result == self.head().type_hash,
    {
        self.head.type_hash
    }

    pub fn guid(&self) -> (result: Guid)
        ensures
            result@ == self.head().guid,
    {
        self.head.guid
    }

    pub fn procedure(&self) -> (result: &str)
        ensures
            result@ == self.head().procedure,
    {
        self.head.procedure.as_str()
    }
}

/// Reading a call in two steps gives what reading it in one does, if its head can be read.
pub proof fn law_two_steps_agree_with_one<Output: Codec, Input: Codec, const TYPE_HASH: u64>(
    bytes: Seq<u8>,
)
    requires
        HeadView::parse(None, bytes).result is Ok,
    ensures
        ({
            let head = HeadView::parse(None, bytes);
            let known = head.result->Ok_0;
            <Rpc<Output, Input, TYPE_HASH> as Codec>::parse(bytes).result == (if known.type_hash
                == TYPE_HASH {
                Rpc::<Output, Input, TYPE_HASH>::parse_content(
                    known,
                    bytes.skip(head.consumed as int),
                ).result
            } else {
                Err(Error::RpcTypeMismatch)
            })
        }),
{
}

/// A request that waits for its response.
#[verifier::reject_recursive_types(Output)]
#[verifier::reject_recursive_types(Input)]
pub struct RpcCall<Output: Codec, Input: Codec, const TYPE_HASH: u64> {
    pub type_hash: u64,
    pub guid: Guid,
    pub procedure: String,
    pub marker: PhantomData<(Output, Input)>,
}

impl<Output: Codec, Input: Codec, const TYPE_HASH: u64> RpcCall<Output, Input, TYPE_HASH> {
    pub fn type_hash(&self) -> (result: u64)
        ensures
            result == self.type_hash,
    {
        self.type_hash
    }

    pub fn guid(&self) -> (result: Guid)
        ensures
            result == self.guid,
    {
        self.guid
    }

    pub fn procedure(&self) -> (result: &str)
        ensures
            result@ == self.procedure@,
    {
        self.procedure.as_str()
    }

    /// The response to the request, under the same id.
    pub fn respond(self, output: Output::Value) -> (result: Rpc<Output, Input, TYPE_HASH>)
        ensures
            result == Rpc::<Output, Input, TYPE_HASH>::Response(
                RpcResponse {
                    type_hash: self.type_hash,
                    guid: self.guid,
                    procedure: self.procedure,
                    output,
                },
            ),
    {
        Rpc::Response(
            RpcResponse {
                type_hash: self.type_hash,
                guid: self.guid,
                procedure: self.procedure,
                output,
            },
        )
    }
}

/// How the head of a call looks: a byte for request or response, the number of its type in eight
/// bytes, the number of the call, and the name of the procedure with its length in two bytes in
/// front, the lowest first.
pub proof fn law_heads_on_the_wire(head: HeadView)
    ensures
        head.bytes() == seq![head.kind] + little_endian(head.type_hash as nat, 8) + head.guid
            + little_endian(encode_utf8(head.procedure).len(), 2) + encode_utf8(head.procedure),
{
    assert(head.bytes() =~= seq![head.kind] + little_endian(head.type_hash as nat, 8) + head.guid
        + little_endian(encode_utf8(head.procedure).len(), 2) + encode_utf8(head.procedure));
}

/// A head of another type than the one that is expected is refused, whatever else it says, and so
/// is one that is neither request nor response.
pub proof fn law_other_types_are_refused(head: HeadView, expected: u64, bytes: Seq<u8>)
    ensures
        head.kind <= 1 && expected != head.type_hash ==> HeadView::parse(
            Some(expected),
            head.bytes() + bytes,
        ).result == Err::<HeadView, Error>(Error::RpcTypeMismatch),
        bytes.len() > 0 && bytes[0] > 1 ==> HeadView::parse(Some(expected), bytes).result == Err::<
            HeadView,
            Error,
        >(Error::UnknownRpcKind),
        bytes.len() == 0 ==> HeadView::parse(Some(expected), bytes).result == Err::<
            HeadView,
            Error,
        >(Error::UnexpectedEof),
{
    let all = head.bytes() + bytes;
    let number = little_endian(head.type_hash as nat, 8);
    let behind = all.skip(1).skip(8);
    assert(head.type_hash < crate::endian::byte_power(8)) by {
        reveal_with_fuel(crate::endian::byte_power, 9);
    }
    crate::endian::law_lowest_byte_first(head.type_hash as nat, 8, 0);
    assert(all.skip(1) =~= number + behind);
    crate::endian::law_little_endian_round_trip(head.type_hash as nat, 8, behind);
    assert(all[0] == head.kind);
}

} // verus!
