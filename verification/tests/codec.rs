use std::collections::{BTreeMap, HashMap, VecDeque};
use std::marker::PhantomData;
use std::rc::Rc;
use std::sync::Arc;
use tehuti::buffer::Buffer;
use tehuti::codec::string::StringCodec;
use tehuti::codec::Codec;
use tehuti::endian::{from_little_endian, read_little_endian, to_little_endian};
use tehuti::error::Error;
use tehuti::leb::{read_signed, read_unsigned, write_signed, write_unsigned};
use tehuti::ordered_map::OrderedMap;
use tehuti::primitive::{read_char, read_string, write_char, write_string};
use tehuti::replication::containers::{apply_arc_changes, apply_rc_changes};
use tehuti::replication::{hash, Replicable};
use tehuti::std_maps::{
    by_key, from_btree_map, from_hash_map, into_btree_map, into_hash_map,
};

fn written<C: Codec>(value: &C::Value) -> Vec<u8> {
    let mut buffer = Buffer::new(Vec::new());
    C::encode(value, &mut buffer).unwrap();
    buffer.into_inner()
}

fn read<C: Codec>(bytes: &[u8]) -> Result<C::Value, Error> {
    C::decode(&mut Buffer::new(bytes.to_vec()))
}

fn state<T: Replicable>(value: &T) -> Vec<u8> {
    let mut buffer = Buffer::new(Vec::new());
    value.collect_changes(&mut buffer).unwrap();
    buffer.into_inner()
}

fn with_state<T: Replicable>(mut value: T, bytes: Vec<u8>) -> T {
    let mut buffer = Buffer::new(bytes);
    value.apply_changes(&mut buffer).unwrap();
    assert_eq!(buffer.remaining(), 0);
    value
}

#[test]
fn numbers_take_as_many_bytes_as_they_need() {
    let mut buffer = Buffer::new(Vec::new());
    write_unsigned(&mut buffer, 300);
    write_signed(&mut buffer, -2);
    write_unsigned(&mut buffer, u64::MAX);
    write_signed(&mut buffer, i64::MIN);
    let bytes = buffer.into_inner();
    assert_eq!(bytes[..3], [0xAC, 0x02, 0x7E]);
    let mut buffer = Buffer::new(bytes);
    assert_eq!(read_unsigned(&mut buffer), Ok(300));
    assert_eq!(read_signed(&mut buffer), Ok(-2));
    assert_eq!(read_unsigned(&mut buffer), Ok(u64::MAX));
    assert_eq!(read_signed(&mut buffer), Ok(i64::MIN));
    assert_eq!(read_unsigned(&mut buffer), Err(Error::UnexpectedEof));
    let mut long = vec![0xFF; 10];
    long.push(1);
    let mut long = Buffer::new(long);
    assert_eq!(read_unsigned(&mut long), Err(Error::NumberOverflow));
    assert_eq!(long.remaining(), 0);
    let mut long = vec![0x80; 10];
    long.push(1);
    let mut long = Buffer::new(long);
    assert_eq!(read_signed(&mut long), Err(Error::NumberOverflow));
}

#[test]
fn fixed_numbers_have_their_lowest_byte_first() {
    assert_eq!(to_little_endian(0x0102, 4), vec![2, 1, 0, 0]);
    assert_eq!(from_little_endian(&[2, 1]), 0x0102);
    let mut buffer = Buffer::new(vec![5, 0, 9]);
    assert_eq!(read_little_endian(&mut buffer, 2), Ok(5));
    assert_eq!(
        read_little_endian(&mut buffer, 2),
        Err(Error::UnexpectedEof)
    );
}

#[test]
fn texts_are_utf8() {
    let mut buffer = Buffer::new(Vec::new());
    write_string(&mut buffer, "h\u{E9}");
    write_char(&mut buffer, 'z');
    let bytes = buffer.into_inner();
    let mut buffer = Buffer::new(bytes);
    assert_eq!(read_string(&mut buffer), Ok("h\u{E9}".to_owned()));
    assert_eq!(read_char(&mut buffer), Ok('z'));
    assert_eq!(read::<String>(&[1, 0, 0, 0, 0, 0, 0, 0, 0xFF]), Err(Error::InvalidUtf8));
    let mut surrogate = Buffer::new(vec![0, 0xD8, 0, 0]);
    assert_eq!(read_char(&mut surrogate), Err(Error::InvalidChar));
    assert_eq!(
        written::<StringCodec>(&"ab".to_owned()),
        vec![0, 0, 0, 0, 0, 0, 0, 2, b'a', b'b']
    );
    assert_eq!(
        read::<StringCodec>(&[0, 0, 0, 0, 0, 0, 0, 1, b'x']),
        Ok("x".to_owned())
    );
}

#[test]
fn containers_count_their_values() {
    let two = [2, 0, 0, 0, 0, 0, 0, 0, 1, 0];
    assert_eq!(written::<Vec<bool>>(&vec![true, false]), two);
    assert_eq!(read::<Vec<bool>>(&two), Ok(vec![true, false]));
    assert_eq!(read::<Vec<bool>>(&two[..9]), Err(Error::UnexpectedEof));
    let queue: VecDeque<bool> = [true, false].into_iter().collect();
    assert_eq!(read::<VecDeque<bool>>(&two), Ok(queue));
    let pair = ["a".to_owned(), "b".to_owned()];
    let bytes = written::<[String; 2]>(&pair);
    assert_eq!(read::<[String; 2]>(&bytes), Ok(pair));
    let bytes = written::<Option<String>>(&Some("x".to_owned()));
    assert_eq!(read::<Option<String>>(&bytes), Ok(Some("x".to_owned())));
    assert_eq!(
        read::<Option<String>>(&written::<Option<String>>(&None)),
        Ok(None)
    );
    let bytes = written::<Result<bool, String>>(&Err("no".to_owned()));
    assert_eq!(
        read::<Result<bool, String>>(&bytes),
        Ok(Err("no".to_owned()))
    );
    assert_eq!(
        read::<Box<bool>>(&written::<Box<bool>>(&Box::new(true))),
        Ok(Box::new(true))
    );
    assert_eq!(
        read::<Rc<bool>>(&written::<Rc<bool>>(&Rc::new(true))),
        Ok(Rc::new(true))
    );
    assert_eq!(
        read::<Arc<bool>>(&written::<Arc<bool>>(&Arc::new(false))),
        Ok(Arc::new(false))
    );
    let triple = (true, "x".to_owned(), false);
    let bytes = written::<(bool, String, bool)>(&triple);
    assert_eq!(read::<(bool, String, bool)>(&bytes), Ok(triple));
    assert!(written::<PhantomData<u8>>(&PhantomData).is_empty());
    assert_eq!(read::<bool>(&[7]), Ok(true));
}

#[test]
fn states_are_taken_on() {
    assert_eq!(
        with_state(Vec::<u8>::new(), state(&vec![1u8, 2, 3])),
        vec![1, 2, 3]
    );
    let queue: VecDeque<u16> = [300, 2].into_iter().collect();
    assert_eq!(with_state(VecDeque::new(), state(&queue)), queue);
    assert_eq!(with_state([0u8; 3], state(&[7, 8, 9])), [7, 8, 9]);
    assert_eq!(with_state(None, state(&Some(5i32))), Some(5));
    assert_eq!(with_state(Some(1i32), state(&None::<i32>)), None);
    assert_eq!(
        with_state(Ok(1u8), state(&Err::<u8, i8>(-1))),
        Err::<u8, i8>(-1)
    );
    assert_eq!(with_state(Box::new(0u64), state(&Box::new(9u64))), Box::new(9));
    assert_eq!(
        with_state((0u8, String::new()), state(&(1u8, "x".to_owned()))),
        (1, "x".to_owned())
    );
    let pairs = vec![(1u8, 2u8, 3u8, 4u8), (5, 6, 7, 8)];
    assert_eq!(
        with_state(Vec::<(u8, u8, u8, u8)>::new(), state(&pairs)),
        pairs
    );
    assert_eq!(with_state('a', state(&'\u{1F600}')), '\u{1F600}');
    assert_eq!(state(&-3i8), vec![0x7D]);
    assert_eq!(state(&300u16), vec![0xAC, 0x02]);
}

#[test]
fn shared_values_stay_for_the_others() {
    let mut lone = Rc::new((1u8, 2u8));
    assert_eq!(
        apply_rc_changes(&mut lone, &mut Buffer::new(vec![9])),
        Err(Error::UnexpectedEof)
    );
    assert_eq!(*lone, (9, 2));
    let mut shared = Rc::new((1u8, 2u8));
    let other = shared.clone();
    assert_eq!(
        apply_rc_changes(&mut shared, &mut Buffer::new(vec![9])),
        Err(Error::UnexpectedEof)
    );
    assert_eq!(*shared, (1, 2));
    apply_rc_changes(&mut shared, &mut Buffer::new(vec![9, 8])).unwrap();
    assert_eq!(*shared, (9, 8));
    assert_eq!(*other, (1, 2));

    let mut lone = Arc::new(1u8);
    apply_arc_changes(&mut lone, &mut Buffer::new(vec![5])).unwrap();
    assert_eq!(*lone, 5);
    let other = lone.clone();
    apply_arc_changes(&mut lone, &mut Buffer::new(vec![6])).unwrap();
    assert_eq!(*lone, 6);
    assert_eq!(*other, 5);
}

#[test]
fn maps_are_written_by_key() {
    let mut map = OrderedMap::<bool>::new();
    map.insert(3, true);
    map.insert(1, false);
    assert_eq!(map.insert(3, false), Some(true));
    let bytes = state(&map);
    assert_eq!(bytes[0], 2);
    let back = with_state(OrderedMap::<bool>::new(), bytes);
    assert_eq!(back.len(), 2);
    assert_eq!(back.get(1), Some(&false));
    assert_eq!(back.get(3), Some(&false));
    assert_eq!(back.key(0), 1);
    assert_eq!(back.get(2), None);
    let mut set = OrderedMap::<()>::new();
    set.insert(9, ());
    assert!(with_state(OrderedMap::<()>::new(), state(&set)).contains_key(9));
    assert_eq!(map.remove(1), Some(false));
    assert_eq!(map.pop_first(), Some((3, false)));
    assert!(map.is_empty());
}

#[test]
fn hashes_tell_values_apart() {
    assert_eq!(hash(&"a"), hash(&"a"));
    assert_ne!(hash(&"a"), hash(&"b"));
    assert_ne!(hash(&1u8), hash(&2u8));
}

#[test]
fn flags_are_checked() {
    let mut value = Some(1u8);
    assert_eq!(
        value.apply_changes(&mut Buffer::new(vec![7])),
        Err(Error::InvalidFlag)
    );
    assert_eq!(value, Some(1));
    let mut value: Result<u8, u8> = Ok(1);
    assert_eq!(
        value.apply_changes(&mut Buffer::new(vec![9])),
        Err(Error::InvalidFlag)
    );
}

#[test]
fn standard_maps_are_written_by_key() {
    let map: BTreeMap<u64, bool> = [(9, true), (2, false)].into_iter().collect();
    let bytes = state(&map);
    assert_eq!(bytes, vec![2, 0, 0, 0, 0, 0, 0, 0, 2, 0, 9, 1]);
    let prior: BTreeMap<u64, bool> = [(1, true)].into_iter().collect();
    assert_eq!(with_state(prior, bytes), map);
    assert_eq!(
        written::<BTreeMap<u64, bool>>(&map)[..8],
        [2, 0, 0, 0, 0, 0, 0, 0]
    );
    let listed: Vec<(u64, bool)> = by_key(&map).into_iter().map(|(k, v)| (k, *v)).collect();
    assert_eq!(listed, vec![(2, false), (9, true)]);

    let ordered = from_btree_map(map.clone());
    assert_eq!(ordered.key(0), 2);
    assert_eq!(into_btree_map(ordered), map);
    let hashed: HashMap<u64, char> = [(5, 'x'), (3, 'y')].into_iter().collect();
    let ordered = from_hash_map(hashed.clone());
    assert_eq!(ordered.get(3), Some(&'y'));
    assert_eq!(ordered.len(), 2);
    assert_eq!(into_hash_map(ordered), hashed);
}

#[test]
fn shared_values_are_replicated_where_they_stand() {
    let values = vec![Rc::new(7u32), Rc::new(300)];
    let bytes = state(&values);
    assert_eq!(bytes, state(&vec![7u32, 300]));
    let kept = Rc::new(1u32);
    let mut others = vec![kept.clone(), Rc::new(2)];
    others = with_state(others, bytes);
    assert_eq!(others, values);
    assert_eq!(*kept, 1);

    let text = Arc::new("shared".to_owned());
    let other = with_state(Arc::new(String::new()), state(&text));
    assert_eq!(other, text);
    let mut broken = Arc::new(5u16);
    assert!(broken.apply_changes(&mut Buffer::new(vec![])).is_err());
    assert_eq!(*broken, 5);
}
