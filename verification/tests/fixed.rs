use rust_decimal::Decimal;
use std::collections::hash_map::DefaultHasher;
use std::hash::{Hash, Hasher};
use tehuti::buffer::Buffer;
use tehuti::codec::Codec;
use tehuti::error::Error;
use tehuti::fixed::Fixed;
use tehuti::replication::Replicable;

type Money = Fixed<2>;

fn money(text: &str) -> Money {
    Money::from_str(text).unwrap()
}

fn hash_of(number: &Money) -> u64 {
    let mut hasher = DefaultHasher::new();
    number.hash(&mut hasher);
    hasher.finish()
}

#[test]
fn numbers_keep_their_digits() {
    let number = Money::new(Decimal::new(12345, 4).serialize());
    assert_eq!(Decimal::deserialize(number.decimal()), Decimal::new(123, 2));
    assert_eq!(Decimal::deserialize(number.decimal()).scale(), 2);
    assert_eq!(number.to_text(), "1.23");
    assert_eq!(money("1.235").to_text(), "1.24");
    assert_eq!(money("-1.235").to_text(), "-1.24");
    assert_eq!(money("7").to_text(), "7.00");
    assert_eq!(Money::new(number.decimal()), number);
    assert_eq!(Money::default().to_text(), "0");
    assert_eq!(Fixed::<0>::from_str("2.5").unwrap().to_text(), "3");
    assert_eq!(
        Fixed::<200>::from_str("1").unwrap().decimal(),
        Fixed::<28>::from_str("1").unwrap().decimal()
    );
}

#[test]
fn text_that_is_no_number_is_refused() {
    assert_eq!(Money::from_str("one").err(), Some(Error::NotADecimal));
    assert_eq!(Money::from_str("").err(), Some(Error::NotADecimal));
}

#[test]
fn whole_numbers_come_back() {
    for value in [0, 1, -1, 42, i64::MAX, i64::MIN] {
        assert_eq!(Money::from_i64(value).into_i64(), value);
    }
    assert_eq!(Money::from_i8(-7).to_text(), "-7.00");
    assert_eq!(Money::from_i16(300).into_i16(), 300);
    assert_eq!(Money::from_i32(-70000).into_i32(), -70000);
    assert_eq!(Money::from_isize(9).into_i8(), 9);
    let large = 0xFFFF_FFFF_FFFF_FFFF_FFFF_FFFF;
    assert_eq!(Money::from_i128(large).into_i128(), large);
    assert_eq!(money("-2.99").into_i128(), -2);
}

#[test]
fn arithmetic_is_exact_and_then_cut() {
    let (a, b) = (money("10.50"), money("0.25"));
    assert_eq!((a + b).to_text(), "10.75");
    assert_eq!((a - b).to_text(), "10.25");
    assert_eq!(a + b - b, a);
    assert_eq!((a * b).to_text(), "2.63");
    assert_eq!((a / b).to_text(), "42.00");
    assert_eq!((a % money("4")).to_text(), "2.50");
    assert_eq!((-a).to_text(), "-10.50");
    assert_eq!(a.checked_add(b), Some(money("10.75")));
    assert_eq!(a.checked_sub(b), Some(money("10.25")));
    assert_eq!(a.checked_mul(b), Some(money("2.63")));
    assert_eq!(a.checked_div(b), Some(money("42")));
    assert_eq!(a.checked_rem(money("4")), Some(money("2.5")));
    assert_eq!(a.checked_div(Money::default()), None);
    assert_eq!(a.checked_rem(Money::default()), None);
    let most = Fixed::<0>::from_i128(0xFFFF_FFFF_FFFF_FFFF_FFFF_FFFF);
    let one = Fixed::<0>::from_i8(1);
    assert_eq!(most.checked_add(one), None);
    assert_eq!((-most).checked_sub(one), None);
    assert_eq!(most.checked_mul(most), None);
}

#[test]
fn arithmetic_in_place_is_the_same() {
    let mut number = money("8");
    number.add_assign(money("2"));
    number.sub_assign(money("1"));
    number.mul_assign(money("3"));
    number.div_assign(money("2"));
    assert_eq!(number.to_text(), "13.50");
    number.rem_assign(money("5"));
    assert_eq!(number.to_text(), "3.50");
    assert!(number.checked_add_assign(money("1")));
    assert!(number.checked_sub_assign(money("0.5")));
    assert!(number.checked_mul_assign(money("2")));
    assert!(number.checked_div_assign(money("4")));
    assert!(number.checked_rem_assign(money("1.5")));
    assert_eq!(number.to_text(), "0.50");
    assert!(!number.checked_div_assign(Money::default()));
    assert!(!number.checked_rem_assign(Money::default()));
    assert_eq!(number.to_text(), "0.50");
}

#[test]
fn numbers_are_ordered_by_value() {
    assert!(money("1.10") < money("1.20"));
    assert!(money("-3") < money("2"));
    assert!(money("5") > money("4.99"));
    assert_eq!(money("0"), -money("0"));
    assert_ne!(money("1"), money("1.01"));
    assert_eq!(hash_of(&money("1")), hash_of(&money("1.00")));
    assert_ne!(hash_of(&money("1")), hash_of(&money("2")));
}

#[test]
fn numbers_are_sixteen_bytes() {
    let number = money("3.14");
    let mut buffer = Buffer::new(Vec::new());
    number.collect_changes(&mut buffer).unwrap();
    let bytes = buffer.into_inner();
    assert_eq!(bytes, Decimal::new(314, 2).serialize().to_vec());
    let mut read = Money::default();
    read.apply_changes(&mut Buffer::new(bytes)).unwrap();
    assert_eq!(read, number);

    let mut buffer = Buffer::new(Vec::new());
    Money::encode(&number, &mut buffer).unwrap();
    let mut buffer = Buffer::new(buffer.into_inner());
    assert_eq!(Money::decode(&mut buffer), Ok(number));
    assert_eq!(Money::decode(&mut buffer), Err(Error::UnexpectedEof));
}

#[test]
fn too_many_digits_are_cut_down() {
    // A scale of 30 is more than there is: the number is divided by a hundred, and what is cut
    // off rounds up from five on.
    for (magnitude, left) in [(1204u16, 12u8), (1205, 13), (1299, 13)] {
        let mut bytes = [0u8; 16];
        bytes[0] = 7;
        bytes[2] = 30;
        bytes[3] = 0x81;
        bytes[4..6].copy_from_slice(&magnitude.to_le_bytes());
        let number = Decimal::deserialize(Fixed::<28>::new(bytes).decimal());
        assert_eq!(number.scale(), 28);
        assert_eq!(number.mantissa(), -i128::from(left));
    }
}
