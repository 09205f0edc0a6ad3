use tehuti::buffer::Buffer;
use tehuti::codec::block::BlockCodec;
use tehuti::codec::Codec;
use tehuti::error::Error;
use tehuti::rpc::{Guid, Rpc};
use tehuti::wire::{Bytes, Emitted, Parsed};

/// Truth, by postcard.
struct PostcardBool;

/// Text, by postcard.
struct PostcardString;

impl Codec for PostcardBool {
    type Value = bool;

    type Model = ();

    fn model(_: bool) {}

    fn emit(_: bool) -> Emitted {
        unreachable!()
    }

    fn parse(_: Bytes) -> Parsed<()> {
        unreachable!()
    }

    fn parse_is_within(_: Bytes) {}

    fn encode(message: &bool, buffer: &mut Buffer) -> Result<(), Error> {
        BlockCodec::encode(&postcard::to_allocvec(message).unwrap(), buffer)
    }

    fn decode(buffer: &mut Buffer) -> Result<bool, Error> {
        Ok(postcard::from_bytes(&BlockCodec::decode(buffer)?).unwrap())
    }
}

impl Codec for PostcardString {
    type Value = String;

    type Model = ();

    fn model(_: String) {}

    fn emit(_: String) -> Emitted {
        unreachable!()
    }

    fn parse(_: Bytes) -> Parsed<()> {
        unreachable!()
    }

    fn parse_is_within(_: Bytes) {}

    fn encode(message: &String, buffer: &mut Buffer) -> Result<(), Error> {
        BlockCodec::encode(&postcard::to_allocvec(message).unwrap(), buffer)
    }

    fn decode(buffer: &mut Buffer) -> Result<String, Error> {
        Ok(postcard::from_bytes(&BlockCodec::decode(buffer)?).unwrap())
    }
}

type RpcGreet = Rpc<PostcardBool, PostcardString>;

fn greet(name: &str) -> bool {
    name == "Alice"
}

#[test]
fn greeting_is_answered() {
    // Machine A create and send RPC.
    let rpc = RpcGreet::new("greet".to_owned(), "Alice".to_string());
    let guid = rpc.guid();
    assert!(rpc.is_request());
    assert_eq!(rpc.procedure(), Some("greet"));

    let mut buffer = Buffer::new(Vec::new());
    rpc.encode(&mut buffer).unwrap();

    // Machine B receive RPC, execute it and send response.
    let rpc = RpcGreet::decode(&mut Buffer::new(buffer.into_inner())).unwrap();
    assert_eq!(rpc.guid(), guid);
    assert!(rpc.is_request());

    let (call, input) = rpc.call().unwrap();
    assert_eq!(call.guid(), guid);
    assert_eq!(call.procedure(), "greet");
    assert_eq!(input.as_str(), "Alice");

    let rpc = call.respond(greet(&input));
    assert_eq!(rpc.guid(), guid);
    assert!(rpc.is_response());

    let mut buffer = Buffer::new(Vec::new());
    rpc.encode(&mut buffer).unwrap();

    // Machine A receive RPC response.
    let rpc = RpcGreet::decode(&mut Buffer::new(buffer.into_inner())).unwrap();
    assert_eq!(rpc.guid(), guid);
    assert_eq!(rpc.procedure(), None);
    assert!(rpc.is_response());
    let output = rpc.result().unwrap();
    assert!(output);
}

#[test]
fn requests_and_responses_are_told_apart() {
    let request = RpcGreet::new("greet".to_owned(), "Bob".to_owned());
    assert_eq!(request.result().err(), Some(Error::NotAResponse));
    let (call, input) = RpcGreet::new("greet".to_owned(), "Bob".to_owned())
        .call()
        .unwrap();
    assert_eq!(
        call.respond(greet(&input)).call().err(),
        Some(Error::NotARequest)
    );
    let mut odd = Buffer::new(vec![7; 64]);
    assert_eq!(RpcGreet::decode(&mut odd).err(), Some(Error::UnknownRpcKind));
    assert_ne!(Guid::random(), Guid::random());
}
