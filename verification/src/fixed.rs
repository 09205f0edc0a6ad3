//! Decimal numbers with a fixed number of digits behind the point.

use rust_decimal::Decimal;
use std::cmp::Ordering;
use std::hash::{Hash, Hasher};
use std::ops::{Add, Div, Mul, Neg, Rem, Sub};
use std::str::FromStr;
use vstd::prelude::*;
use vstd::std_specs::cmp::{PartialEqSpecImpl, PartialOrdSpecImpl};
use vstd::std_specs::ops::{
    AddSpecImpl, DivSpecImpl, MulSpecImpl, NegSpecImpl, RemSpecImpl, SubSpecImpl,
};

use crate::buffer::Buffer;
use crate::codec::containers::array_from_vec;
use crate::codec::{Codec, LosslessCodec};
use crate::endian::little_endian_value;
use crate::error::Error;
use crate::replication::{DefaultReplicable, LosslessReplicable, Replicable};
use crate::wire::{Applied, Emitted, Parsed};

verus! {

/// The largest magnitude of a decimal number: that of 96 bits.
pub const LARGEST: u128 = 0xFFFF_FFFF_FFFF_FFFF_FFFF_FFFF;

/// The most digits that a decimal number has behind the point.
pub const MOST_DIGITS: u8 = 28;

/// `value` divided by ten to the power of `scale`.
#[verifier::ext_equal]
pub struct DecimalView {
    pub value: int,
    pub scale: nat,
}

/// Ten to some power.
pub open spec fn tens(power: nat) -> nat
    decreases power,
{
    if power == 0 {
        1
    } else {
        10 * tens((power - 1) as nat)
    }
}

/// The size of a number.
pub open spec fn size(value: int) -> nat {
    if value < 0 {
        (-value) as nat
    } else {
        value as nat
    }
}

/// Whether bytes are those of a decimal number: two that are zero, the scale, the sign, and the
/// twelve of its magnitude.
pub open spec fn is_decimal(bytes: Seq<u8>) -> bool {
    &&& bytes.len() == 16
    &&& bytes[0] == 0
    &&& bytes[1] == 0
    &&& bytes[2] <= 28
    &&& bytes[3] == 0 || bytes[3] == 128
}

/// The decimal number that bytes stand for.
pub open spec fn decimal_of(bytes: Seq<u8>) -> DecimalView {
    let magnitude = little_endian_value(bytes.skip(4)) as int;
    DecimalView {
        value: if bytes[3] == 128 {
            -magnitude
        } else {
            magnitude
        },
        scale: bytes[2] as nat,
    }
}

/// Digits added behind the point, up to `scale` of them and as long as the magnitude fits.
pub open spec fn grown(number: DecimalView, scale: nat) -> DecimalView
    decreases scale - number.scale,
{
    if number.scale >= scale || 10 * size(number.value) > LARGEST {
        number
    } else {
        grown(DecimalView { value: 10 * number.value, scale: number.scale + 1 }, scale)
    }
}

/// All but `scale` digits behind the point dropped, rounding half away from zero.
pub open spec fn shrunk(number: DecimalView, scale: nat) -> DecimalView {
    let dropped = (number.scale - scale) as nat;
    let magnitude = (size(number.value) / tens((dropped - 1) as nat) + 5) / 10;
    DecimalView {
        value: if number.value < 0 {
            -(magnitude as int)
        } else {
            magnitude as int
        },
        scale,
    }
}

/// The number with `scale` digits behind the point, or as many as fit.
pub open spec fn rescaled(number: DecimalView, scale: nat) -> DecimalView {
    if number.scale > scale {
        shrunk(number, scale)
    } else {
        grown(number, scale)
    }
}

/// What comes in front of the point.
pub open spec fn truncated(number: DecimalView) -> int {
    let magnitude = (size(number.value) / tens(number.scale)) as int;
    if number.value < 0 {
        -magnitude
    } else {
        magnitude
    }
}

/// `a` and `b` over the same power of ten.
pub open spec fn aligned(a: DecimalView, b: DecimalView) -> (int, int) {
    (a.value * tens(b.scale), b.value * tens(a.scale))
}

/// How many digits behind the point `wanted` ones come to.
pub open spec fn digits(wanted: u8) -> nat {
    if wanted <= 28 {
        wanted as nat
    } else {
        28
    }
}

/// Bytes without what has no meaning in those of a decimal number.
pub open spec fn masked(bytes: Seq<u8>) -> Seq<u8> {
    seq![
        0u8,
        0u8,
        (bytes[2] % 32) as u8,
        if bytes[3] >= 128 {
            128u8
        } else {
            0u8
        },
    ] + bytes.skip(4)
}

/// A number with more digits behind the point than any decimal number has, cut down to the most
/// there are. What is cut off rounds up from five on, however many digits it has.
pub open spec fn cut_down(number: DecimalView) -> DecimalView {
    let power = tens((number.scale - 28) as nat);
    let kept = (size(number.value) / power) as int;
    let magnitude = if size(number.value) % power >= 5 {
        kept + 1
    } else {
        kept
    };
    DecimalView {
        value: if number.value < 0 {
            -magnitude
        } else {
            magnitude
        },
        scale: 28,
    }
}

/// The number that is read from sixteen bytes.
pub open spec fn read_from(bytes: Seq<u8>) -> DecimalView {
    if bytes[2] % 32 <= 28 {
        decimal_of(masked(bytes))
    } else {
        cut_down(decimal_of(masked(bytes)))
    }
}

/// `Decimal::deserialize`, and `Decimal::serialize` of what that gives. Bits without a meaning
/// are cleared. A number with more digits behind the point than any decimal number has is cut
/// down.
#[verifier::external_body]
fn mend(bytes: &[u8; 16]) -> (result: [u8; 16])
    ensures
        is_decimal(result@),
        bytes@[2] % 32 <= 28 ==> result@ == masked(bytes@),
        bytes@[2] % 32 > 28 ==> decimal_of(result@) == cut_down(decimal_of(masked(bytes@))),
        result@[3] == masked(bytes@)[3],
{
    Decimal::deserialize(*bytes).serialize()
}

/// The bytes of a decimal number are read as they are.
proof fn lemma_masked(bytes: Seq<u8>)
    requires
        is_decimal(bytes),
    ensures
        masked(bytes) == bytes,
        read_from(bytes) == decimal_of(bytes),
{
    assert(masked(bytes) =~= bytes);
}

/// `Decimal::rescale`: more digits are zeros, as many as the magnitude has room for, and fewer
/// are rounded half away from zero.
#[verifier::external_body]
fn rescale(bytes: &[u8; 16], scale: u8) -> (result: [u8; 16])
    requires
        is_decimal(bytes@),
        scale <= 28,
    ensures
        is_decimal(result@),
        decimal_of(result@) == rescaled(decimal_of(bytes@), scale as nat),
{
    let mut number = Decimal::deserialize(*bytes);
    number.rescale(scale.into());
    number.serialize()
}

/// `Decimal::from` on an `i128`: the number itself, with no digits behind the point.
#[verifier::external_body]
fn whole(value: i128) -> (result: [u8; 16])
    requires
        -0xFFFF_FFFF_FFFF_FFFF_FFFF_FFFF <= value <= 0xFFFF_FFFF_FFFF_FFFF_FFFF_FFFF,
    ensures
        is_decimal(result@),
        decimal_of(result@) == (DecimalView { value: value as int, scale: 0 }),
{
    Decimal::from(value).serialize()
}

/// `Decimal::as_i128`, which is what `i128::try_from` gives: what comes in front of the point.
#[verifier::external_body]
fn truncate(bytes: &[u8; 16]) -> (result: i128)
    requires
        is_decimal(bytes@),
    ensures
        result == truncated(decimal_of(bytes@)),
{
    Decimal::deserialize(*bytes).as_i128()
}

/// `-` on a `Decimal`: the other sign.
#[verifier::external_body]
fn negate(bytes: &[u8; 16]) -> (result: [u8; 16])
    requires
        is_decimal(bytes@),
    ensures
        is_decimal(result@),
        decimal_of(result@) == (DecimalView {
            value: -decimal_of(bytes@).value,
            ..decimal_of(bytes@)
        }),
{
    (-Decimal::deserialize(*bytes)).serialize()
}

/// `Decimal::cmp`: how the numbers are ordered, whatever digits they have behind the point.
#[verifier::external_body]
fn compare(a: &[u8; 16], b: &[u8; 16]) -> (result: Ordering)
    requires
        is_decimal(a@),
        is_decimal(b@),
    ensures
        result == order_of(decimal_of(a@), decimal_of(b@)),
{
    Decimal::deserialize(*a).cmp(&Decimal::deserialize(*b))
}

/// How numbers are ordered.
pub open spec fn order_of(a: DecimalView, b: DecimalView) -> Ordering {
    let (x, y) = aligned(a, b);
    if x < y {
        Ordering::Less
    } else if x > y {
        Ordering::Greater
    } else {
        Ordering::Equal
    }
}

/// `Hash::hash` on a `Decimal`. Nothing is claimed of the hasher.
#[verifier::external_body]
fn hash_decimal<H: Hasher>(bytes: &[u8; 16], state: &mut H) {
    Decimal::deserialize(*bytes).hash(state)
}

/// What `Decimal::from_str` gives.
pub uninterp spec fn decimal_in(text: Seq<char>) -> Option<Seq<u8>>;

/// `Decimal::from_str`: the number that a text tells, if it tells one.
#[verifier::external_body]
fn parse_text(text: &str) -> (result: Option<[u8; 16]>)
    ensures
        match result {
            Some(bytes) => is_decimal(bytes@) && decimal_in(text@) == Some(bytes@),
            None => decimal_in(text@) is None,
        },
{
    Decimal::from_str(text).ok().map(|number| number.serialize())
}

/// What `Decimal::to_string` gives.
pub uninterp spec fn decimal_text(bytes: Seq<u8>) -> Seq<char>;

/// `Decimal::to_string`: the number as text.
#[verifier::external_body]
fn write_text(bytes: &[u8; 16]) -> (result: String)
    requires
        is_decimal(bytes@),
    ensures
        result@ == decimal_text(bytes@),
{
    Decimal::deserialize(*bytes).to_string()
}

/// What `Decimal::checked_add` gives.
pub uninterp spec fn decimal_sum(a: Seq<u8>, b: Seq<u8>) -> Option<Seq<u8>>;

/// The sum of two numbers, unless it is too large. With as many digits behind the point in
/// both, and a magnitude that fits, it is exact.
pub open spec fn sum_of(a: Seq<u8>, b: Seq<u8>) -> Option<DecimalView> {
    let (x, y) = (decimal_of(a), decimal_of(b));
    if x.scale == y.scale && size(x.value + y.value) <= LARGEST {
        Some(DecimalView { value: x.value + y.value, scale: x.scale })
    } else {
        match decimal_sum(a, b) {
            Some(bytes) => Some(decimal_of(bytes)),
            None => None,
        }
    }
}

/// `Decimal::checked_add`: both added, if that is not too large, and exactly so where both have as
/// many digits behind the point and the magnitude fits.
#[verifier::external_body]
fn checked_add(a: &[u8; 16], b: &[u8; 16]) -> (result: Option<[u8; 16]>)
    requires
        is_decimal(a@),
        is_decimal(b@),
    ensures
        match result {
            Some(bytes) => is_decimal(bytes@) && sum_of(a@, b@) == Some(decimal_of(bytes@)),
            None => sum_of(a@, b@) is None,
        },
        decimal_sum(a@, b@) == (match result {
            Some(bytes) => Some(bytes@),
            None => None,
        }),
{
    Decimal::deserialize(*a).checked_add(Decimal::deserialize(*b)).map(|number| number.serialize())
}

/// What `Decimal::checked_sub` gives.
pub uninterp spec fn decimal_difference(a: Seq<u8>, b: Seq<u8>) -> Option<Seq<u8>>;

/// The difference of two numbers, unless it is too large. With as many digits behind the point in
/// both, and a magnitude that fits, it is exact.
pub open spec fn difference_of(a: Seq<u8>, b: Seq<u8>) -> Option<DecimalView> {
    let (x, y) = (decimal_of(a), decimal_of(b));
    if x.scale == y.scale && size(x.value - y.value) <= LARGEST {
        Some(DecimalView { value: x.value - y.value, scale: x.scale })
    } else {
        match decimal_difference(a, b) {
            Some(bytes) => Some(decimal_of(bytes)),
            None => None,
        }
    }
}

/// `Decimal::checked_sub`: one less the other, if that is not too large, and exactly so where both have as
/// many digits behind the point and the magnitude fits.
#[verifier::external_body]
fn checked_sub(a: &[u8; 16], b: &[u8; 16]) -> (result: Option<[u8; 16]>)
    requires
        is_decimal(a@),
        is_decimal(b@),
    ensures
        match result {
            Some(bytes) => is_decimal(bytes@) && difference_of(a@, b@) == Some(decimal_of(bytes@)),
            None => difference_of(a@, b@) is None,
        },
        decimal_difference(a@, b@) == (match result {
            Some(bytes) => Some(bytes@),
            None => None,
        }),
{
    Decimal::deserialize(*a).checked_sub(Decimal::deserialize(*b)).map(|number| number.serialize())
}

/// What `Decimal::checked_mul` gives.
pub uninterp spec fn decimal_product(a: Seq<u8>, b: Seq<u8>) -> Option<Seq<u8>>;

/// The product of two numbers, if there is one.
pub open spec fn product_of(a: Seq<u8>, b: Seq<u8>) -> Option<DecimalView> {
    match decimal_product(a, b) {
        Some(bytes) => Some(decimal_of(bytes)),
        None => None,
    }
}

/// `Decimal::checked_mul`: one times the other, if that can be told.
#[verifier::external_body]
fn checked_mul(a: &[u8; 16], b: &[u8; 16]) -> (result: Option<[u8; 16]>)
    requires
        is_decimal(a@),
        is_decimal(b@),
    ensures
        match result {
            Some(bytes) => is_decimal(bytes@) && product_of(a@, b@) == Some(decimal_of(bytes@)),
            None => product_of(a@, b@) is None,
        },
        decimal_product(a@, b@) == (match result {
            Some(bytes) => Some(bytes@),
            None => None,
        }),
{
    Decimal::deserialize(*a).checked_mul(Decimal::deserialize(*b)).map(|number| number.serialize())
}

/// What `Decimal::checked_div` gives.
pub uninterp spec fn decimal_quotient(a: Seq<u8>, b: Seq<u8>) -> Option<Seq<u8>>;

/// The quotient of two numbers, if there is one.
pub open spec fn quotient_of(a: Seq<u8>, b: Seq<u8>) -> Option<DecimalView> {
    match decimal_quotient(a, b) {
        Some(bytes) => Some(decimal_of(bytes)),
        None => None,
    }
}

/// `Decimal::checked_div`: one divided by the other, if that can be told.
#[verifier::external_body]
fn checked_div(a: &[u8; 16], b: &[u8; 16]) -> (result: Option<[u8; 16]>)
    requires
        is_decimal(a@),
        is_decimal(b@),
    ensures
        match result {
            Some(bytes) => is_decimal(bytes@) && quotient_of(a@, b@) == Some(decimal_of(bytes@)),
            None => quotient_of(a@, b@) is None,
        },
        decimal_quotient(a@, b@) == (match result {
            Some(bytes) => Some(bytes@),
            None => None,
        }),
{
    Decimal::deserialize(*a).checked_div(Decimal::deserialize(*b)).map(|number| number.serialize())
}

/// What `Decimal::checked_rem` gives.
pub uninterp spec fn decimal_remainder(a: Seq<u8>, b: Seq<u8>) -> Option<Seq<u8>>;

/// The remainder of two numbers, if there is one.
pub open spec fn remainder_of(a: Seq<u8>, b: Seq<u8>) -> Option<DecimalView> {
    match decimal_remainder(a, b) {
        Some(bytes) => Some(decimal_of(bytes)),
        None => None,
    }
}

/// `Decimal::checked_rem`: what one leaves divided by the other, if that can be told.
#[verifier::external_body]
fn checked_rem(a: &[u8; 16], b: &[u8; 16]) -> (result: Option<[u8; 16]>)
    requires
        is_decimal(a@),
        is_decimal(b@),
    ensures
        match result {
            Some(bytes) => is_decimal(bytes@) && remainder_of(a@, b@) == Some(decimal_of(bytes@)),
            None => remainder_of(a@, b@) is None,
        },
        decimal_remainder(a@, b@) == (match result {
            Some(bytes) => Some(bytes@),
            None => None,
        }),
{
    Decimal::deserialize(*a).checked_rem(Decimal::deserialize(*b)).map(|number| number.serialize())
}

/// A decimal number with `N` digits behind the point, or as many as its magnitude has room for.
#[derive(Debug, Clone, Copy)]
pub struct Fixed<const N: u8> {
    bytes: [u8; 16],
}

impl<const N: u8> View for Fixed<N> {
    type V = DecimalView;

    /// The number. The sign that a zero can have shows in the bytes alone.
    closed spec fn view(&self) -> DecimalView {
        decimal_of(self.bytes@)
    }
}

impl<const N: u8> Fixed<N> {
    #[verifier::type_invariant]
    spec fn holds_a_decimal(self) -> bool {
        is_decimal(self.bytes@)
    }

    /// The bytes of the number.
    pub closed spec fn bytes(self) -> Seq<u8> {
        self.bytes@
    }

    /// The number of digits behind the point, at most [`MOST_DIGITS`].
    fn scale() -> (result: u8)
        ensures
            result == digits(N),
    {
        if N <= MOST_DIGITS {
            N
        } else {
            MOST_DIGITS
        }
    }

    /// The number that sixteen bytes stand for, with `N` digits behind the point.
    pub fn new(bytes: [u8; 16]) -> (result: Self)
        ensures
            result@ == rescaled(read_from(bytes@), digits(N)),
            is_decimal(result.bytes()),
    {
        let bytes = mend(&bytes);
        Fixed { bytes: rescale(&bytes, Self::scale()) }
    }

    /// The bytes of the number.
    pub fn decimal(&self) -> (result: [u8; 16])
        ensures
            result@ == self.bytes(),
            is_decimal(result@),
            decimal_of(result@) == self@,
    {
        proof {
            use_type_invariant(self);
        }
        self.bytes
    }

    pub fn from_i128(value: i128) -> (result: Self)
        requires
            -0xFFFF_FFFF_FFFF_FFFF_FFFF_FFFF <= value <= 0xFFFF_FFFF_FFFF_FFFF_FFFF_FFFF,
        ensures
            result@ == rescaled(DecimalView { value: value as int, scale: 0 }, digits(N)),
    {
        let bytes = whole(value);
        Fixed { bytes: rescale(&bytes, Self::scale()) }
    }

    pub fn into_i128(self) -> (result: i128)
        ensures
            result == truncated(self@),
    {
        proof {
            use_type_invariant(&self);
        }
        truncate(&self.bytes)
    }

    pub fn from_i64(value: i64) -> (result: Self)
        ensures
            result@ == rescaled(DecimalView { value: value as int, scale: 0 }, digits(N)),
    {
        Self::from_i128(value as i128)
    }

    pub fn from_i32(value: i32) -> (result: Self)
        ensures
            result@ == rescaled(DecimalView { value: value as int, scale: 0 }, digits(N)),
    {
        Self::from_i128(value as i128)
    }

    pub fn from_i16(value: i16) -> (result: Self)
        ensures
            result@ == rescaled(DecimalView { value: value as int, scale: 0 }, digits(N)),
    {
        Self::from_i128(value as i128)
    }

    pub fn from_i8(value: i8) -> (result: Self)
        ensures
            result@ == rescaled(DecimalView { value: value as int, scale: 0 }, digits(N)),
    {
        Self::from_i128(value as i128)
    }

    pub fn from_isize(value: isize) -> (result: Self)
        ensures
            result@ == rescaled(DecimalView { value: value as int, scale: 0 }, digits(N)),
    {
        Self::from_i128(value as i128)
    }

    pub fn into_i64(self) -> (result: i64)
        requires
            i64::MIN <= truncated(self@) <= i64::MAX,
        ensures
            result == truncated(self@),
    {
        self.into_i128() as i64
    }

    pub fn into_i32(self) -> (result: i32)
        requires
            i32::MIN <= truncated(self@) <= i32::MAX,
        ensures
            result == truncated(self@),
    {
        self.into_i128() as i32
    }

    pub fn into_i16(self) -> (result: i16)
        requires
            i16::MIN <= truncated(self@) <= i16::MAX,
        ensures
            result == truncated(self@),
    {
        self.into_i128() as i16
    }

    pub fn into_i8(self) -> (result: i8)
        requires
            i8::MIN <= truncated(self@) <= i8::MAX,
        ensures
            result == truncated(self@),
    {
        self.into_i128() as i8
    }

    /// The number that a text tells.
    pub fn from_str(text: &str) -> (result: Result<Self, Error>)
        ensures
            match result {
                Ok(number) => {
                    &&& decimal_in(text@) is Some
                    &&& number@ == rescaled(
                        decimal_of(decimal_in(text@)->Some_0),
                        digits(N),
                    )
                },
                Err(error) => decimal_in(text@) is None && error == Error::NotADecimal,
            },
    {
        match parse_text(text) {
            Some(bytes) => Ok(Fixed { bytes: rescale(&bytes, Self::scale()) }),
            None => Err(Error::NotADecimal),
        }
    }

    /// The number as text.
    pub fn to_text(&self) -> (result: String)
        ensures
            result@ == decimal_text(self.bytes()),
    {
        proof {
            use_type_invariant(self);
        }
        write_text(&self.bytes)
    }

    /// The sum, if it can be told.
    pub fn checked_add(self, rhs: Self) -> (result: Option<Self>)
        ensures
            match sum_of(self.bytes(), rhs.bytes()) {
                Some(number) => {
                    &&& result matches Some(fixed)
                    &&& fixed@ == rescaled(number, digits(N))
                },
                None => result is None,
            },
    {
        proof {
            use_type_invariant(&self);
            use_type_invariant(&rhs);
        }
        match checked_add(&self.bytes, &rhs.bytes) {
            Some(_) => Some(self + rhs),
            None => None,
        }
    }

    pub fn add_assign(&mut self, rhs: Self)
        requires
            sum_of(old(self).bytes(), rhs.bytes()) is Some,
        ensures
            final(self)@ == rescaled(
                sum_of(old(self).bytes(), rhs.bytes())->Some_0,
                digits(N),
            ),
    {
        *self = *self + rhs;
    }

    /// Moves on to the sum, if it can be told. Says whether it can.
    pub fn checked_add_assign(&mut self, rhs: Self) -> (result: bool)
        ensures
            result == (sum_of(old(self).bytes(), rhs.bytes()) is Some),
            result ==> final(self)@ == rescaled(
                sum_of(old(self).bytes(), rhs.bytes())->Some_0,
                digits(N),
            ),
            !result ==> *final(self) == *old(self),
    {
        match self.checked_add(rhs) {
            Some(_) => {
                self.add_assign(rhs);
                true
            },
            None => false,
        }
    }

    /// The difference, if it can be told.
    pub fn checked_sub(self, rhs: Self) -> (result: Option<Self>)
        ensures
            match difference_of(self.bytes(), rhs.bytes()) {
                Some(number) => {
                    &&& result matches Some(fixed)
                    &&& fixed@ == rescaled(number, digits(N))
                },
                None => result is None,
            },
    {
        proof {
            use_type_invariant(&self);
            use_type_invariant(&rhs);
        }
        match checked_sub(&self.bytes, &rhs.bytes) {
            Some(_) => Some(self - rhs),
            None => None,
        }
    }

    pub fn sub_assign(&mut self, rhs: Self)
        requires
            difference_of(old(self).bytes(), rhs.bytes()) is Some,
        ensures
            final(self)@ == rescaled(
                difference_of(old(self).bytes(), rhs.bytes())->Some_0,
                digits(N),
            ),
    {
        *self = *self - rhs;
    }

    /// Moves on to the difference, if it can be told. Says whether it can.
    pub fn checked_sub_assign(&mut self, rhs: Self) -> (result: bool)
        ensures
            result == (difference_of(old(self).bytes(), rhs.bytes()) is Some),
            result ==> final(self)@ == rescaled(
                difference_of(old(self).bytes(), rhs.bytes())->Some_0,
                digits(N),
            ),
            !result ==> *final(self) == *old(self),
    {
        match self.checked_sub(rhs) {
            Some(_) => {
                self.sub_assign(rhs);
                true
            },
            None => false,
        }
    }

    /// The product, if it can be told.
    pub fn checked_mul(self, rhs: Self) -> (result: Option<Self>)
        ensures
            match product_of(self.bytes(), rhs.bytes()) {
                Some(number) => {
                    &&& result matches Some(fixed)
                    &&& fixed@ == rescaled(number, digits(N))
                },
                None => result is None,
            },
    {
        proof {
            use_type_invariant(&self);
            use_type_invariant(&rhs);
        }
        match checked_mul(&self.bytes, &rhs.bytes) {
            Some(_) => Some(self * rhs),
            None => None,
        }
    }

    pub fn mul_assign(&mut self, rhs: Self)
        requires
            product_of(old(self).bytes(), rhs.bytes()) is Some,
        ensures
            final(self)@ == rescaled(
                product_of(old(self).bytes(), rhs.bytes())->Some_0,
                digits(N),
            ),
    {
        *self = *self * rhs;
    }

    /// Moves on to the product, if it can be told. Says whether it can.
    pub fn checked_mul_assign(&mut self, rhs: Self) -> (result: bool)
        ensures
            result == (product_of(old(self).bytes(), rhs.bytes()) is Some),
            result ==> final(self)@ == rescaled(
                product_of(old(self).bytes(), rhs.bytes())->Some_0,
                digits(N),
            ),
            !result ==> *final(self) == *old(self),
    {
        match self.checked_mul(rhs) {
            Some(_) => {
                self.mul_assign(rhs);
                true
            },
            None => false,
        }
    }

    /// The quotient, if it can be told.
    pub fn checked_div(self, rhs: Self) -> (result: Option<Self>)
        ensures
            match quotient_of(self.bytes(), rhs.bytes()) {
                Some(number) => {
                    &&& result matches Some(fixed)
                    &&& fixed@ == rescaled(number, digits(N))
                },
                None => result is None,
            },
    {
        proof {
            use_type_invariant(&self);
            use_type_invariant(&rhs);
        }
        match checked_div(&self.bytes, &rhs.bytes) {
            Some(_) => Some(self / rhs),
            None => None,
        }
    }

    pub fn div_assign(&mut self, rhs: Self)
        requires
            quotient_of(old(self).bytes(), rhs.bytes()) is Some,
        ensures
            final(self)@ == rescaled(
                quotient_of(old(self).bytes(), rhs.bytes())->Some_0,
                digits(N),
            ),
    {
        *self = *self / rhs;
    }

    /// Moves on to the quotient, if it can be told. Says whether it can.
    pub fn checked_div_assign(&mut self, rhs: Self) -> (result: bool)
        ensures
            result == (quotient_of(old(self).bytes(), rhs.bytes()) is Some),
            result ==> final(self)@ == rescaled(
                quotient_of(old(self).bytes(), rhs.bytes())->Some_0,
                digits(N),
            ),
            !result ==> *final(self) == *old(self),
    {
        match self.checked_div(rhs) {
            Some(_) => {
                self.div_assign(rhs);
                true
            },
            None => false,
        }
    }

    /// The remainder, if it can be told.
    pub fn checked_rem(self, rhs: Self) -> (result: Option<Self>)
        ensures
            match remainder_of(self.bytes(), rhs.bytes()) {
                Some(number) => {
                    &&& result matches Some(fixed)
                    &&& fixed@ == rescaled(number, digits(N))
                },
                None => result is None,
            },
    {
        proof {
            use_type_invariant(&self);
            use_type_invariant(&rhs);
        }
        match checked_rem(&self.bytes, &rhs.bytes) {
            Some(_) => Some(self % rhs),
            None => None,
        }
    }

    pub fn rem_assign(&mut self, rhs: Self)
        requires
            remainder_of(old(self).bytes(), rhs.bytes()) is Some,
        ensures
            final(self)@ == rescaled(
                remainder_of(old(self).bytes(), rhs.bytes())->Some_0,
                digits(N),
            ),
    {
        *self = *self % rhs;
    }

    /// Moves on to the remainder, if it can be told. Says whether it can.
    pub fn checked_rem_assign(&mut self, rhs: Self) -> (result: bool)
        ensures
            result == (remainder_of(old(self).bytes(), rhs.bytes()) is Some),
            result ==> final(self)@ == rescaled(
                remainder_of(old(self).bytes(), rhs.bytes())->Some_0,
                digits(N),
            ),
            !result ==> *final(self) == *old(self),
    {
        match self.checked_rem(rhs) {
            Some(_) => {
                self.rem_assign(rhs);
                true
            },
            None => false,
        }
    }

}

impl<const N: u8> Default for Fixed<N> {
    fn default() -> (result: Self)
        ensures
            result@ == (DecimalView { value: 0, scale: 0 }),
    {
        Fixed { bytes: whole(0) }
    }
}

impl<const N: u8> PartialEq for Fixed<N> {
    fn eq(&self, other: &Self) -> (result: bool) {
        proof {
            use_type_invariant(self);
            use_type_invariant(other);
        }
        match compare(&self.bytes, &other.bytes) {
            Ordering::Equal => true,
            _ => false,
        }
    }
}

impl<const N: u8> PartialEqSpecImpl for Fixed<N> {
    open spec fn obeys_eq_spec() -> bool {
        true
    }

    open spec fn eq_spec(&self, other: &Self) -> bool {
        aligned(self@, other@).0 == aligned(self@, other@).1
    }
}

impl<const N: u8> Eq for Fixed<N> {

}

impl<const N: u8> PartialOrd for Fixed<N> {
    fn partial_cmp(&self, other: &Self) -> (result: Option<Ordering>) {
        proof {
            use_type_invariant(self);
            use_type_invariant(other);
        }
        Some(compare(&self.bytes, &other.bytes))
    }
}

impl<const N: u8> PartialOrdSpecImpl for Fixed<N> {
    open spec fn obeys_partial_cmp_spec() -> bool {
        true
    }

    open spec fn partial_cmp_spec(&self, other: &Self) -> Option<Ordering> {
        Some(order_of(self@, other@))
    }
}

impl<const N: u8> Hash for Fixed<N> {
    fn hash<H: Hasher>(&self, state: &mut H) {
        hash_decimal(&self.bytes, state)
    }
}

impl<const N: u8> Neg for Fixed<N> {
    type Output = Self;

    fn neg(self) -> (result: Self)
        ensures
            result@ == rescaled(DecimalView { value: -self@.value, ..self@ }, digits(N)),
    {
        proof {
            use_type_invariant(&self);
        }
        let bytes = negate(&self.bytes);
        Fixed { bytes: rescale(&bytes, Self::scale()) }
    }
}

impl<const N: u8> NegSpecImpl for Fixed<N> {
    open spec fn obeys_neg_spec() -> bool {
        false
    }

    open spec fn neg_req(self) -> bool {
        true
    }

    open spec fn neg_spec(self) -> Self {
        self
    }
}

impl<const N: u8> Add for Fixed<N> {
    type Output = Self;

    fn add(self, rhs: Self) -> (result: Self)
        ensures
            result@ == rescaled(
                sum_of(self.bytes(), rhs.bytes())->Some_0,
                digits(N),
            ),
    {
        proof {
            use_type_invariant(&self);
            use_type_invariant(&rhs);
        }
        match checked_add(&self.bytes, &rhs.bytes) {
            Some(bytes) => Fixed { bytes: rescale(&bytes, Self::scale()) },
            None => self,
        }
    }
}

impl<const N: u8> AddSpecImpl for Fixed<N> {
    open spec fn obeys_add_spec() -> bool {
        false
    }

    open spec fn add_req(self, rhs: Self) -> bool {
        sum_of(self.bytes(), rhs.bytes()) is Some
    }

    open spec fn add_spec(self, rhs: Self) -> Self {
        self
    }
}

impl<const N: u8> Sub for Fixed<N> {
    type Output = Self;

    fn sub(self, rhs: Self) -> (result: Self)
        ensures
            result@ == rescaled(
                difference_of(self.bytes(), rhs.bytes())->Some_0,
                digits(N),
            ),
    {
        proof {
            use_type_invariant(&self);
            use_type_invariant(&rhs);
        }
        match checked_sub(&self.bytes, &rhs.bytes) {
            Some(bytes) => Fixed { bytes: rescale(&bytes, Self::scale()) },
            None => self,
        }
    }
}

impl<const N: u8> SubSpecImpl for Fixed<N> {
    open spec fn obeys_sub_spec() -> bool {
        false
    }

    open spec fn sub_req(self, rhs: Self) -> bool {
        difference_of(self.bytes(), rhs.bytes()) is Some
    }

    open spec fn sub_spec(self, rhs: Self) -> Self {
        self
    }
}

impl<const N: u8> Mul for Fixed<N> {
    type Output = Self;

    fn mul(self, rhs: Self) -> (result: Self)
        ensures
            result@ == rescaled(
                product_of(self.bytes(), rhs.bytes())->Some_0,
                digits(N),
            ),
    {
        proof {
            use_type_invariant(&self);
            use_type_invariant(&rhs);
        }
        match checked_mul(&self.bytes, &rhs.bytes) {
            Some(bytes) => Fixed { bytes: rescale(&bytes, Self::scale()) },
            None => self,
        }
    }
}

impl<const N: u8> MulSpecImpl for Fixed<N> {
    open spec fn obeys_mul_spec() -> bool {
        false
    }

    open spec fn mul_req(self, rhs: Self) -> bool {
        product_of(self.bytes(), rhs.bytes()) is Some
    }

    open spec fn mul_spec(self, rhs: Self) -> Self {
        self
    }
}

impl<const N: u8> Div for Fixed<N> {
    type Output = Self;

    fn div(self, rhs: Self) -> (result: Self)
        ensures
            result@ == rescaled(
                quotient_of(self.bytes(), rhs.bytes())->Some_0,
                digits(N),
            ),
    {
        proof {
            use_type_invariant(&self);
            use_type_invariant(&rhs);
        }
        match checked_div(&self.bytes, &rhs.bytes) {
            Some(bytes) => Fixed { bytes: rescale(&bytes, Self::scale()) },
            None => self,
        }
    }
}

impl<const N: u8> DivSpecImpl for Fixed<N> {
    open spec fn obeys_div_spec() -> bool {
        false
    }

    open spec fn div_req(self, rhs: Self) -> bool {
        quotient_of(self.bytes(), rhs.bytes()) is Some
    }

    open spec fn div_spec(self, rhs: Self) -> Self {
        self
    }
}

impl<const N: u8> Rem for Fixed<N> {
    type Output = Self;

    fn rem(self, rhs: Self) -> (result: Self)
        ensures
            result@ == rescaled(
                remainder_of(self.bytes(), rhs.bytes())->Some_0,
                digits(N),
            ),
    {
        proof {
            use_type_invariant(&self);
            use_type_invariant(&rhs);
        }
        match checked_rem(&self.bytes, &rhs.bytes) {
            Some(bytes) => Fixed { bytes: rescale(&bytes, Self::scale()) },
            None => self,
        }
    }
}

impl<const N: u8> RemSpecImpl for Fixed<N> {
    open spec fn obeys_rem_spec() -> bool {
        false
    }

    open spec fn rem_req(self, rhs: Self) -> bool {
        remainder_of(self.bytes(), rhs.bytes()) is Some
    }

    open spec fn rem_spec(self, rhs: Self) -> Self {
        self
    }
}

/// What reading sixteen bytes comes to.
pub open spec fn parse_fixed(digits: nat, bytes: Seq<u8>) -> Parsed<DecimalView> {
    if bytes.len() < 16 {
        Parsed { result: Err(Error::UnexpectedEof), consumed: bytes.len() }
    } else {
        Parsed { result: Ok(rescaled(read_from(bytes.take(16)), digits)), consumed: 16 }
    }
}

impl<const N: u8> Replicable for Fixed<N> {
    type Model = DecimalView;

    open spec fn model(self) -> DecimalView {
        self@
    }

    open spec fn emit(self) -> Emitted {
        Emitted { bytes: self.bytes(), error: None }
    }

    open spec fn parse(prior: DecimalView, bytes: Seq<u8>) -> Applied<DecimalView> {
        let parsed = parse_fixed(digits(N), bytes);
        Applied {
            model: match parsed.result {
                Ok(number) => number,
                Err(_) => prior,
            },
            error: match parsed.result {
                Ok(_) => None,
                Err(error) => Some(error),
            },
            consumed: parsed.consumed,
        }
    }

    proof fn parse_is_within(prior: DecimalView, bytes: Seq<u8>) {
    }

    fn collect_changes(&self, buffer: &mut Buffer) -> (result: Result<(), Error>) {
        buffer.write_all(self.bytes.as_slice());
        Ok(())
    }

    fn apply_changes(&mut self, buffer: &mut Buffer) -> (result: Result<(), Error>) {
        match <Fixed<N> as Codec>::decode(buffer) {
            Ok(number) => {
                *self = number;
                Ok(())
            },
            Err(error) => Err(error),
        }
    }
}

impl<const N: u8> DefaultReplicable for Fixed<N> {
    open spec fn blank() -> DecimalView {
        DecimalView { value: 0, scale: 0 }
    }

    proof fn default_is_blank(value: Fixed<N>) {
    }
}

impl<const N: u8> LosslessReplicable for Fixed<N> {
    open spec fn fits(self) -> bool {
        is_decimal(self.bytes()) && self@.scale == digits(N)
    }

    proof fn law_round_trip(self, prior: DecimalView, tail: Seq<u8>) {
        assert((self.bytes() + tail).take(16) =~= self.bytes());
        lemma_masked(self.bytes());
    }
}

impl<const N: u8> Codec for Fixed<N> {
    type Value = Fixed<N>;

    type Model = DecimalView;

    open spec fn model(value: Fixed<N>) -> DecimalView {
        value@
    }

    open spec fn emit(value: Fixed<N>) -> Emitted {
        Emitted { bytes: value.bytes(), error: None }
    }

    open spec fn parse(bytes: Seq<u8>) -> Parsed<DecimalView> {
        parse_fixed(digits(N), bytes)
    }

    proof fn parse_is_within(bytes: Seq<u8>) {
    }

    fn encode(message: &Fixed<N>, buffer: &mut Buffer) -> (result: Result<(), Error>) {
        buffer.write_all(message.bytes.as_slice());
        Ok(())
    }

    fn decode(buffer: &mut Buffer) -> (result: Result<Fixed<N>, Error>) {
        let bytes: Vec<u8> = match buffer.read_exact(16) {
            Ok(bytes) => bytes,
            Err(error) => {
                return Err(error);
            },
        };
        let array: [u8; 16] = array_from_vec(bytes);
        Ok(Fixed::new(array))
    }
}

impl<const N: u8> LosslessCodec for Fixed<N> {
    open spec fn fits(value: Fixed<N>) -> bool {
        is_decimal(value.bytes()) && value@.scale == digits(N)
    }

    proof fn law_round_trip(value: Fixed<N>, tail: Seq<u8>) {
        assert((value.bytes() + tail).take(16) =~= value.bytes());
        lemma_masked(value.bytes());
    }
}

proof fn lemma_grown(number: DecimalView, scale: nat)
    requires
        number.scale <= scale,
        size(number.value) <= LARGEST,
    ensures
        number.scale <= grown(number, scale).scale <= scale,
        size(grown(number, scale).value) <= LARGEST,
        grown(grown(number, scale), scale) == grown(number, scale),
        truncated(grown(number, scale)) == truncated(number),
    decreases scale - number.scale,
{
    if number.scale < scale && 10 * size(number.value) <= LARGEST {
        let next = DecimalView { value: 10 * number.value, scale: number.scale + 1 };
        lemma_grown(next, scale);
        let magnitude = size(number.value) as int;
        let power = tens(number.scale) as int;
        lemma_tens(number.scale);
        assert(size(next.value) == 10 * magnitude);
        assert((10 * magnitude) / (10 * power) == magnitude / power) by {
            vstd::arithmetic::div_mod::lemma_truncate_middle(magnitude, power, 10);
            vstd::arithmetic::div_mod::lemma_div_multiples_vanish_quotient(10, magnitude, power);
        }
    }
}

proof fn lemma_tens(power: nat)
    ensures
        tens(power) > 0,
    decreases power,
{
    if power > 0 {
        lemma_tens((power - 1) as nat);
    }
}

/// Asking for the digits that a number has already changes nothing, and so does asking for the
/// same digits twice.
pub proof fn law_rescaling_settles(number: DecimalView, scale: nat)
    requires
        size(number.value) <= LARGEST,
    ensures
        number.scale == scale ==> rescaled(number, scale) == number,
        rescaled(rescaled(number, scale), scale) == rescaled(number, scale),
{
    if number.scale <= scale {
        lemma_grown(number, scale);
    }
}

/// Whole numbers survive: what comes in front of the point of a number made from one is that
/// number again.
pub proof fn law_whole_numbers_round_trip(value: int, wanted: u8)
    requires
        size(value) <= LARGEST,
    ensures
        truncated(rescaled(DecimalView { value, scale: 0 }, digits(wanted))) == value,
{
    let number = DecimalView { value, scale: 0 };
    lemma_grown(number, digits(wanted));
    assert(tens(0) == 1);
    assert(truncated(number) == value);
}

/// Adding and taking away again is exact, as long as the numbers have all their digits and the
/// magnitudes fit.
pub proof fn law_sum_and_difference(a: Seq<u8>, b: Seq<u8>, sum: Seq<u8>)
    requires
        decimal_of(a).scale == decimal_of(b).scale,
        size(decimal_of(a).value) <= LARGEST,
        size(decimal_of(a).value + decimal_of(b).value) <= LARGEST,
        sum_of(a, b) == Some(decimal_of(sum)),
    ensures
        difference_of(sum, b) == Some(decimal_of(a)),
{
}

/// Asking for fewer digits gives the nearest number that has so many, on the same side of zero;
/// of two that are as near, the one further from zero.
pub proof fn law_fewer_digits_round_to_the_nearest(number: DecimalView, scale: nat)
    requires
        scale < number.scale,
    ensures
        rescaled(number, scale).scale == scale,
        number.value >= 0 ==> rescaled(number, scale).value >= 0,
        number.value <= 0 ==> rescaled(number, scale).value <= 0,
        -tens((number.scale - scale) as nat) < 2 * (size(rescaled(number, scale).value) * tens(
            (number.scale - scale) as nat,
        ) - size(number.value)) <= tens((number.scale - scale) as nat),
{
    let dropped = (number.scale - scale) as nat;
    let unit = tens((dropped - 1) as nat) as int;
    let magnitude = size(number.value) as int;
    let lead = magnitude / unit;
    let kept = (lead + 5) / 10;
    lemma_tens((dropped - 1) as nat);
    vstd::arithmetic::div_mod::lemma_fundamental_div_mod(magnitude, unit);
    vstd::arithmetic::div_mod::lemma_mod_bound(magnitude, unit);
    assert(lead >= 0) by {
        vstd::arithmetic::div_mod::lemma_div_pos_is_pos(magnitude, unit);
    }
    assert(10 * kept <= lead + 5 < 10 * kept + 10);
    let rest = magnitude % unit;
    assert(-5 * unit < kept * (10 * unit) - magnitude <= 5 * unit) by (nonlinear_arith)
        requires
            magnitude == unit * lead + rest,
            0 <= rest < unit,
            10 * kept <= lead + 5,
            lead + 5 < 10 * kept + 10,
    ;
    assert(size(rescaled(number, scale).value) == kept);
    assert(tens(dropped) == 10 * unit);
}

/// Asking for more digits changes no value: each digit that is added is a zero. All are added,
/// unless the next one would make the number too large.
pub proof fn law_more_digits_keep_the_value(number: DecimalView, scale: nat)
    requires
        number.scale <= scale,
    ensures
        number.scale <= rescaled(number, scale).scale <= scale,
        rescaled(number, scale).value == number.value * tens(
            (rescaled(number, scale).scale - number.scale) as nat,
        ),
        rescaled(number, scale).scale < scale ==> 10 * size(rescaled(number, scale).value)
            > LARGEST,
        size(number.value) <= LARGEST ==> size(rescaled(number, scale).value) <= LARGEST,
    decreases scale - number.scale,
{
    if number.scale < scale && 10 * size(number.value) <= LARGEST {
        let next = DecimalView { value: 10 * number.value, scale: number.scale + 1 };
        law_more_digits_keep_the_value(next, scale);
        let after = rescaled(next, scale);
        assert(rescaled(number, scale) == after);
        let power = tens((after.scale - next.scale) as nat) as int;
        assert(tens((after.scale - number.scale) as nat) == 10 * power);
        assert((10 * number.value) * power == number.value * (10 * power)) by (nonlinear_arith);
    } else {
        assert(rescaled(number, scale) == number);
        assert(tens(0) == 1);
        assert(number.value * 1 == number.value);
    }
}

/// What stands in front of the point is the whole number next to the value on the side of zero.
pub proof fn law_whole_part(number: DecimalView)
    ensures
        number.value >= 0 ==> truncated(number) >= 0,
        number.value <= 0 ==> truncated(number) <= 0,
        size(truncated(number)) * tens(number.scale) <= size(number.value),
        size(number.value) < (size(truncated(number)) + 1) * tens(number.scale),
{
    let magnitude = size(number.value) as int;
    let power = tens(number.scale) as int;
    let kept = magnitude / power;
    lemma_tens(number.scale);
    vstd::arithmetic::div_mod::lemma_fundamental_div_mod(magnitude, power);
    vstd::arithmetic::div_mod::lemma_mod_bound(magnitude, power);
    vstd::arithmetic::div_mod::lemma_div_pos_is_pos(magnitude, power);
    let rest = magnitude % power;
    assert(kept * power <= magnitude < (kept + 1) * power) by (nonlinear_arith)
        requires
            magnitude == power * kept + rest,
            0 <= rest < power,
    ;
    assert(size(truncated(number)) == kept);
}

/// No number has more than 28 digits behind the point, and as many as were asked for otherwise.
pub proof fn law_digits_behind_the_point(wanted: u8)
    ensures
        digits(wanted) <= 28,
        digits(wanted) <= wanted,
        digits(wanted) == wanted || digits(wanted) == 28,
{
}

/// Numbers are ordered by their values: as whole numbers where they have as many digits, and
/// alike where one only has more zeros at its end. Turning two round turns their order round.
pub proof fn law_ordered_by_value(a: DecimalView, b: DecimalView)
    ensures
        order_of(a, a) is Equal,
        order_of(a, b) is Less <==> order_of(b, a) is Greater,
        order_of(a, b) is Equal <==> order_of(b, a) is Equal,
        a.scale == b.scale ==> (order_of(a, b) is Less <==> a.value < b.value),
        a.scale == b.scale ==> (order_of(a, b) is Equal <==> a.value == b.value),
        b.scale == a.scale + 1 && b.value == 10 * a.value ==> order_of(a, b) is Equal,
        a.value < 0 <= b.value ==> order_of(a, b) is Less,
{
    let (s, t) = (tens(a.scale) + 0, tens(b.scale) + 0);
    lemma_tens(a.scale);
    lemma_tens(b.scale);
    assert(a.scale == b.scale ==> s == t);
    let (x, y) = (a.value, b.value);
    assert(x < y ==> x * s < y * s) by (nonlinear_arith)
        requires
            s > 0,
    ;
    assert(x > y ==> x * s > y * s) by (nonlinear_arith)
        requires
            s > 0,
    ;
    assert(x < 0 <= y ==> x * t < 0 <= y * s) by (nonlinear_arith)
        requires
            s > 0,
            t > 0,
    ;
    assert(b.scale == a.scale + 1 ==> t == 10 * s);
    assert(x * (10 * s) == (10 * x) * s) by (nonlinear_arith);
}

/// Numbers with as many digits are added, and taken from one another, as whole numbers, as long
/// as the magnitudes fit. What is added comes in any order.
pub proof fn law_exact_sums(a: Seq<u8>, b: Seq<u8>)
    requires
        decimal_of(a).scale == decimal_of(b).scale,
    ensures
        size(decimal_of(a).value + decimal_of(b).value) <= LARGEST ==> sum_of(a, b) is Some
            && sum_of(a, b)->0.value == decimal_of(a).value + decimal_of(b).value
            && sum_of(a, b)->0.scale == decimal_of(a).scale && sum_of(b, a) == sum_of(a, b),
        size(decimal_of(a).value - decimal_of(b).value) <= LARGEST ==> difference_of(a, b) is Some
            && difference_of(a, b)->0.value == decimal_of(a).value - decimal_of(b).value
            && difference_of(a, b)->0.scale == decimal_of(a).scale,
{
}

} // verus!
