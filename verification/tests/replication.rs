use std::cell::RefCell;
use std::hash::{Hash, Hasher};

use tehuti::buffer::Buffer;
use tehuti::codec::Codec;
use tehuti::error::Error;
use tehuti::primitive::{read_block, write_block};
use tehuti::replication::primitives::RepF32;
use tehuti::wire::{Applied, Bytes, Emitted, Parsed};
use tehuti::replication::{
    CodecRep, HashCodecReplicated, HashReplicated, ManReplicated, MutCodecReplicated,
    MutReplicated, Replicable, Replicated,
};

#[derive(Debug, Clone, Copy, PartialEq, Eq, Hash)]
struct Foo {
    a: u32,
    b: bool,
}

impl Replicable for Foo {
    type Model = ();

    fn model(self) {}

    fn emit(self) -> Emitted {
        unreachable!()
    }

    fn parse(_: (), _: Bytes) -> Applied<()> {
        unreachable!()
    }

    fn parse_is_within(_: (), _: Bytes) {}

    fn collect_changes(&self, buffer: &mut Buffer) -> Result<(), Error> {
        buffer.write_all(&self.a.to_be_bytes());
        buffer.write_byte(self.b as u8);
        Ok(())
    }

    fn apply_changes(&mut self, buffer: &mut Buffer) -> Result<(), Error> {
        let a = buffer.read_exact(4)?;
        self.a = u32::from_be_bytes([a[0], a[1], a[2], a[3]]);
        self.b = buffer.read_byte()? != 0;
        Ok(())
    }
}

struct PostcardFoo;

impl Codec for PostcardFoo {
    type Value = Foo;
    type Model = ();

    fn model(_: Foo) {}

    fn emit(_: Foo) -> Emitted {
        unreachable!()
    }

    fn parse(_: Bytes) -> Parsed<()> {
        unreachable!()
    }

    fn parse_is_within(_: Bytes) {}

    fn encode(message: &Foo, buffer: &mut Buffer) -> Result<(), Error> {
        let data = postcard::to_allocvec(&(message.a, message.b)).unwrap();
        write_block(buffer, &data);
        Ok(())
    }

    fn decode(buffer: &mut Buffer) -> Result<Foo, Error> {
        let data = read_block(buffer)?;
        let (a, b) = postcard::from_bytes::<(u32, bool)>(&data).unwrap();
        Ok(Foo { a, b })
    }
}

type HashPostcardReplicated = HashCodecReplicated<Foo, PostcardFoo>;


struct Bar {
    a: f32,
    foo: HashPostcardReplicated,
}

struct PostcardBar;

impl Codec for PostcardBar {
    type Value = Bar;
    type Model = ();

    fn model(_: Bar) {}

    fn emit(_: Bar) -> Emitted {
        unreachable!()
    }

    fn parse(_: Bytes) -> Parsed<()> {
        unreachable!()
    }

    fn parse_is_within(_: Bytes) {}

    fn encode(message: &Bar, buffer: &mut Buffer) -> Result<(), Error> {
        let foo = message.foo.as_ref().as_ref();
        let data = postcard::to_allocvec(&(message.a, foo.a, foo.b)).unwrap();
        write_block(buffer, &data);
        Ok(())
    }

    fn decode(buffer: &mut Buffer) -> Result<Bar, Error> {
        let data = read_block(buffer)?;
        let (a, foo_a, foo_b) = postcard::from_bytes::<(f32, u32, bool)>(&data).unwrap();
        Ok(Bar {
            a,
            foo: HashPostcardReplicated::new(Foo { a: foo_a, b: foo_b }.into()),
        })
    }
}

type MutPostcardReplicated = MutCodecReplicated<Bar, PostcardBar>;

struct Zee {
    a: RefCell<HashReplicated<i32>>,
    b: RefCell<HashReplicated<RepF32>>,
}

impl Hash for Zee {
    fn hash<H: Hasher>(&self, state: &mut H) {
        self.a.borrow().hash(state);
        self.b.borrow().hash(state);
    }
}

impl Replicable for Zee {
    type Model = ();

    fn model(self) {}

    fn emit(self) -> Emitted {
        unreachable!()
    }

    fn parse(_: (), _: Bytes) -> Applied<()> {
        unreachable!()
    }

    fn parse_is_within(_: (), _: Bytes) {}

    fn collect_changes(&self, buffer: &mut Buffer) -> Result<(), Error> {
        Replicated::maybe_collect_changes::<0>(&mut self.a.borrow_mut(), buffer)?;
        Replicated::maybe_collect_changes::<1>(&mut self.b.borrow_mut(), buffer)?;
        Ok(())
    }

    fn apply_changes(&mut self, buffer: &mut Buffer) -> Result<(), Error> {
        Replicated::maybe_apply_changes::<0>(&mut self.a.borrow_mut(), buffer)?;
        Replicated::maybe_apply_changes::<1>(&mut self.b.borrow_mut(), buffer)?;
        Ok(())
    }
}

#[test]
fn replication_test_hashed_replication() {
    let mut data = HashReplicated::new(Foo { a: 42, b: false });
    let mut buffer = Buffer::default();
    assert!(Replicated::collect_changes(&mut data, &mut buffer).unwrap());
    assert_eq!(buffer.get_ref().len(), 5);

    data.deref_mut().a = 100;
    data.deref_mut().b = true;

    let mut buffer = Buffer::default();
    assert!(Replicated::collect_changes(&mut data, &mut buffer).unwrap());
    assert_eq!(buffer.get_ref().len(), 5);

    let mut data2 = HashReplicated::new(Foo { a: 42, b: false });
    let mut buffer = Buffer::new(buffer.into_inner());
    Replicated::apply_changes(&mut data2, &mut buffer).unwrap();
    assert_eq!(data2.deref().a, 100);
    assert!(data2.deref().b);
}

#[test]
fn replication_test_mutated_replication() {
    let mut data = MutReplicated::new(Foo { a: 42, b: false });
    let mut buffer = Buffer::default();
    assert!(Replicated::collect_changes(&mut data, &mut buffer).unwrap());
    assert_eq!(buffer.get_ref().len(), 5);

    data.deref_mut().a = 100;

    let mut buffer = Buffer::default();
    assert!(Replicated::collect_changes(&mut data, &mut buffer).unwrap());
    assert_eq!(buffer.get_ref().len(), 5);

    let mut data2 = MutReplicated::new(Foo { a: 42, b: false });
    let mut buffer = Buffer::new(buffer.into_inner());
    Replicated::apply_changes(&mut data2, &mut buffer).unwrap();
    assert_eq!(data2.deref().a, 100);
    assert!(!data2.deref().b);
}

#[test]
fn replication_test_codec_replication() {
    let mut data = HashPostcardReplicated::new(Foo { a: 42, b: false }.into());
    let mut buffer = Buffer::default();
    assert!(Replicated::collect_changes(&mut data, &mut buffer).unwrap());
    assert_eq!(buffer.get_ref().len(), 10);

    data.deref_mut().as_mut().a = 100;
    let mut buffer = Buffer::default();
    assert!(Replicated::collect_changes(&mut data, &mut buffer).unwrap());
    assert_eq!(buffer.get_ref().len(), 10);

    let mut data2 = HashPostcardReplicated::new(Foo { a: 42, b: false }.into());
    let mut buffer = Buffer::new(buffer.into_inner());
    Replicated::apply_changes(&mut data2, &mut buffer).unwrap();
    assert_eq!(data2.deref().as_ref().a, 100);
    assert!(!data2.deref().as_ref().b);
}

fn bar() -> Bar {
    Bar {
        a: 4.2,
        foo: HashPostcardReplicated::new(Foo { a: 42, b: false }.into()),
    }
}

#[test]
fn replication_test_nested_replication() {
    let mut data = MutPostcardReplicated::new(bar().into());

    let mut buffer = Buffer::default();
    assert!(Replicated::collect_changes(&mut data, &mut buffer).unwrap());
    assert_eq!(buffer.get_ref().len(), 14);

    data.deref_mut().as_mut().a = 2.71;
    data.deref_mut().as_mut().foo.deref_mut().as_mut().a = 100;

    let mut buffer = Buffer::default();
    assert!(Replicated::collect_changes(&mut data, &mut buffer).unwrap());
    assert_eq!(buffer.get_ref().len(), 14);

    let mut data2 = MutPostcardReplicated::new(bar().into());
    let mut buffer = Buffer::new(buffer.into_inner());
    Replicated::apply_changes(&mut data2, &mut buffer).unwrap();
    assert_eq!(data2.deref().as_ref().a, 2.71);
    assert_eq!(data2.deref().as_ref().foo.deref().as_ref().a, 100);
    assert!(!data2.deref().as_ref().foo.deref().as_ref().b);
}

#[test]
fn mod_test_hashed_replication() {
    let mut data = HashReplicated::new(Foo { a: 42, b: false });
    let mut buffer = Buffer::default();
    assert!(Replicated::collect_changes(&mut data, &mut buffer).unwrap());
    assert_eq!(buffer.get_ref().len(), 5);

    let mut buffer = Buffer::default();
    assert!(!Replicated::collect_changes(&mut data, &mut buffer).unwrap());
    assert_eq!(buffer.get_ref().len(), 0);

    data.deref_mut().a = 100;
    data.deref_mut().b = true;

    let mut buffer = Buffer::default();
    assert!(Replicated::collect_changes(&mut data, &mut buffer).unwrap());
    assert_eq!(buffer.get_ref().len(), 5);

    let mut data2 = HashReplicated::new(Foo { a: 42, b: false });
    let mut cursor = Buffer::new(buffer.into_inner());
    Replicated::apply_changes(&mut data2, &mut cursor).unwrap();
    assert_eq!(data2.deref().a, 100);
    assert!(data2.deref().b);
}

#[test]
fn mod_test_mutated_replication() {
    let mut data = MutReplicated::new(Foo { a: 42, b: false });
    let mut buffer = Buffer::default();
    assert!(Replicated::collect_changes(&mut data, &mut buffer).unwrap());
    assert_eq!(buffer.get_ref().len(), 5);

    let mut buffer = Buffer::default();
    assert!(!Replicated::collect_changes(&mut data, &mut buffer).unwrap());
    assert_eq!(buffer.get_ref().len(), 0);

    data.deref_mut().a = 100;

    let mut buffer = Buffer::default();
    assert!(Replicated::collect_changes(&mut data, &mut buffer).unwrap());
    assert_eq!(buffer.get_ref().len(), 5);

    let mut data2 = MutReplicated::new(Foo { a: 42, b: false });
    let mut cursor = Buffer::new(buffer.into_inner());
    Replicated::apply_changes(&mut data2, &mut cursor).unwrap();
    assert_eq!(data2.deref().a, 100);
    assert!(!data2.deref().b);
}

#[test]
fn test_manual_replication() {
    let mut data = ManReplicated::new(Foo { a: 42, b: false });
    let mut buffer = Buffer::default();
    assert!(Replicated::collect_changes(&mut data, &mut buffer).unwrap());
    assert_eq!(buffer.get_ref().len(), 5);

    let mut buffer = Buffer::default();
    assert!(!Replicated::collect_changes(&mut data, &mut buffer).unwrap());
    assert_eq!(buffer.get_ref().len(), 0);
    data.deref_mut().b = true;

    let mut buffer = Buffer::default();
    assert!(!Replicated::collect_changes(&mut data, &mut buffer).unwrap());
    assert_eq!(buffer.get_ref().len(), 0);

    data.mark_changed();

    let mut buffer = Buffer::default();
    assert!(Replicated::collect_changes(&mut data, &mut buffer).unwrap());
    assert_eq!(buffer.get_ref().len(), 5);

    let mut data2 = ManReplicated::new(Foo { a: 42, b: false });
    let mut cursor = Buffer::new(buffer.into_inner());
    Replicated::apply_changes(&mut data2, &mut cursor).unwrap();
    assert_eq!(data2.deref().a, 42);
    assert!(data2.deref().b);
}

#[test]
fn mod_test_codec_replication() {
    let mut data = HashPostcardReplicated::new(Foo { a: 42, b: false }.into());
    let mut buffer = Buffer::default();
    assert!(Replicated::collect_changes(&mut data, &mut buffer).unwrap());
    assert_eq!(buffer.get_ref().len(), 10);

    let mut buffer = Buffer::default();
    assert!(!Replicated::collect_changes(&mut data, &mut buffer).unwrap());
    assert_eq!(buffer.get_ref().len(), 0);

    data.deref_mut().as_mut().a = 100;
    let mut buffer = Buffer::default();
    assert!(Replicated::collect_changes(&mut data, &mut buffer).unwrap());
    assert_eq!(buffer.get_ref().len(), 10);

    let mut data2 = HashPostcardReplicated::new(Foo { a: 42, b: false }.into());
    let mut cursor = Buffer::new(buffer.into_inner());
    Replicated::apply_changes(&mut data2, &mut cursor).unwrap();
    assert_eq!(data2.deref().as_ref().a, 100);
    assert!(!data2.deref().as_ref().b);
}

#[test]
fn mod_test_nested_replication() {
    let mut data = MutPostcardReplicated::new(bar().into());

    let mut buffer = Buffer::default();
    assert!(Replicated::collect_changes(&mut data, &mut buffer).unwrap());
    assert_eq!(buffer.get_ref().len(), 14);

    let mut buffer = Buffer::default();
    assert!(!Replicated::collect_changes(&mut data, &mut buffer).unwrap());
    assert_eq!(buffer.get_ref().len(), 0);

    data.deref_mut().as_mut().a = 2.71;
    data.deref_mut().as_mut().foo.deref_mut().as_mut().a = 100;

    let mut buffer = Buffer::default();
    assert!(Replicated::collect_changes(&mut data, &mut buffer).unwrap());
    assert_eq!(buffer.get_ref().len(), 14);

    let mut data2 = MutPostcardReplicated::new(bar().into());
    let mut cursor = Buffer::new(buffer.into_inner());
    Replicated::apply_changes(&mut data2, &mut cursor).unwrap();
    assert_eq!(data2.deref().as_ref().a, 2.71);
    assert_eq!(data2.deref().as_ref().foo.deref().as_ref().a, 100);
    assert!(!data2.deref().as_ref().foo.deref().as_ref().b);
}

#[test]
fn test_partial_replication() {
    let mut data = HashReplicated::new(Zee {
        a: RefCell::new(HashReplicated::new(10)),
        b: RefCell::new(HashReplicated::new(RepF32::from_bits(4.2f32.to_bits()))),
    });

    let mut buffer = Buffer::default();
    assert!(Replicated::collect_changes(&mut data, &mut buffer).unwrap());
    assert_eq!(buffer.get_ref().len(), 9);

    let mut buffer = Buffer::default();
    assert!(!Replicated::collect_changes(&mut data, &mut buffer).unwrap());
    assert_eq!(buffer.get_ref().len(), 0);

    *data.deref_mut().a.borrow_mut().deref_mut() = 20;

    let mut buffer = Buffer::default();
    assert!(Replicated::collect_changes(&mut data, &mut buffer).unwrap());
    assert_eq!(buffer.get_ref().len(), 3);

    *data.deref_mut().b.borrow_mut().deref_mut() = RepF32::from_bits(0.0f32.to_bits());

    let mut buffer = Buffer::default();
    assert!(Replicated::collect_changes(&mut data, &mut buffer).unwrap());
    assert_eq!(buffer.get_ref().len(), 6);
}

#[test]
fn fields_are_written_by_their_own_replication() {
    let mut data = HashReplicated::new((42u32, false));
    let mut buffer = Buffer::default();
    assert!(Replicated::collect_changes(&mut data, &mut buffer).unwrap());
    assert_eq!(buffer.get_ref(), &vec![42, 0]);

    let mut buffer = Buffer::default();
    assert!(!Replicated::collect_changes(&mut data, &mut buffer).unwrap());
    assert_eq!(buffer.get_ref().len(), 0);

    *data.deref_mut() = (300, true);
    let mut buffer = Buffer::default();
    assert!(Replicated::collect_changes(&mut data, &mut buffer).unwrap());
    assert_eq!(buffer.get_ref(), &vec![0xAC, 0x02, 1]);

    let mut other = HashReplicated::new((1u32, false));
    let mut buffer = Buffer::new(buffer.into_inner());
    Replicated::apply_changes(&mut other, &mut buffer).unwrap();
    assert_eq!(*other.deref(), (300, true));
}

#[test]
fn values_are_replicated_by_their_codec() {
    let value = CodecRep::<Foo, PostcardFoo>::new(Foo { a: 9, b: true });
    let mut written = Buffer::default();
    value.collect_changes(&mut written).unwrap();
    let mut expected = Buffer::default();
    PostcardFoo::encode(&Foo { a: 9, b: true }, &mut expected).unwrap();
    assert_eq!(written.get_ref(), expected.get_ref());
    assert!(value == CodecRep::from(Foo { a: 9, b: true }));

    let mut other = CodecRep::<Foo, PostcardFoo>::new(Foo { a: 0, b: false });
    assert!(other.apply_changes(&mut Buffer::new(vec![1])).is_err());
    assert_eq!(*other.as_ref(), Foo { a: 0, b: false });
    other
        .apply_changes(&mut Buffer::new(written.into_inner()))
        .unwrap();
    assert_eq!(other.into_inner(), Foo { a: 9, b: true });
}
