//! Cutting numbers to size.

use vstd::prelude::*;

verus! {

/// The bits of an integer in two's complement, as far as 128 of them reach.
pub open spec fn twos_complement(number: int) -> nat {
    (number % (u128::MAX + 1)) as nat
}

/// The number next to zero that differs from `number` by a multiple of `modulus`.
pub open spec fn wrapped(number: int, modulus: int) -> int {
    let low = number % modulus;
    if 2 * low >= modulus {
        low - modulus
    } else {
        low
    }
}

/// How many bytes a pointer sized number has.
pub open spec fn pointer_size() -> nat {
    (usize::BITS / 8) as nat
}

/// A number of 64 bits cut to the size of a pointer.
pub open spec fn pointer_sized(number: u64) -> usize {
    if usize::MAX == 0xffff_ffff {
        (number % 0x1_0000_0000) as usize
    } else {
        number as usize
    }
}

/// An integer of 64 bits cut to the size of a pointer.
pub open spec fn signed_pointer_sized(number: i64) -> isize {
    if usize::MAX == 0xffff_ffff {
        wrapped(number as int, 0x1_0000_0000) as isize
    } else {
        number as isize
    }
}

/// The bits of an integer in two's complement.
pub fn bits_of(number: i128) -> (result: u128)
    ensures
        result == twos_complement(number as int),
{
    if number >= 0 {
        number as u128
    } else {
        u128::MAX - (-(number + 1)) as u128
    }
}

/// Cuts an integer to 8 bits.
pub fn wrapped_8(number: i64) -> (result: i8)
    ensures
        result == wrapped(number as int, 0x100),
{
    let low: i128 = (number as i128 + 0x1_0000_0000_0000_0000) % 0x100;
    if low >= 0x80 {
        (low - 0x100) as i8
    } else {
        low as i8
    }
}

/// Cuts an integer to 16 bits.
pub fn wrapped_16(number: i64) -> (result: i16)
    ensures
        result == wrapped(number as int, 0x1_0000),
{
    let low: i128 = (number as i128 + 0x1_0000_0000_0000_0000) % 0x1_0000;
    if low >= 0x8000 {
        (low - 0x1_0000) as i16
    } else {
        low as i16
    }
}

/// Cuts an integer to 32 bits.
pub fn wrapped_32(number: i64) -> (result: i32)
    ensures
        result == wrapped(number as int, 0x1_0000_0000),
{
    let low: i128 = (number as i128 + 0x1_0000_0000_0000_0000) % 0x1_0000_0000;
    if low >= 0x8000_0000 {
        (low - 0x1_0000_0000) as i32
    } else {
        low as i32
    }
}

/// Cuts an integer to 64 bits.
pub fn wrapped_64(number: i128) -> (result: i64)
    ensures
        result == wrapped(number as int, 0x1_0000_0000_0000_0000),
{
    let low: i128 = if number >= 0 {
        number % 0x1_0000_0000_0000_0000
    } else {
        0xffff_ffff_ffff_ffff - (-(number + 1)) % 0x1_0000_0000_0000_0000
    };
    if low >= 0x8000_0000_0000_0000 {
        (low - 0x1_0000_0000_0000_0000) as i64
    } else {
        low as i64
    }
}

/// Cuts an integer to the size of a pointer.
pub fn wrapped_pointer(number: i64) -> (result: isize)
    ensures
        result == signed_pointer_sized(number),
{
    if usize::MAX == 0xffff_ffff {
        wrapped_32(number) as isize
    } else {
        number as isize
    }
}

/// Cuts a number to the size of a pointer.
pub fn cut_to_pointer(number: u64) -> (result: usize)
    ensures
        result == pointer_sized(number),
{
    if usize::MAX == 0xffff_ffff {
        (number % 0x1_0000_0000) as usize
    } else {
        number as usize
    }
}

/// A number that is wrapped lies in the range that has as many numbers below zero as from zero
/// on, and differs by a multiple of the modulus; a number in that range stays.
pub proof fn law_wrapped_into_range(number: int, modulus: int)
    requires
        modulus > 0,
    ensures
        -modulus <= 2 * wrapped(number, modulus) < modulus,
        (number - wrapped(number, modulus)) % modulus == 0,
        -modulus <= 2 * number < modulus ==> wrapped(number, modulus) == number,
{
    let low = number % modulus;
    vstd::arithmetic::div_mod::lemma_fundamental_div_mod(number, modulus);
    assert(number - low == modulus * (number / modulus));
    vstd::arithmetic::div_mod::lemma_mod_multiples_basic(number / modulus, modulus);
    assert((modulus * (number / modulus)) % modulus == 0) by {
        vstd::arithmetic::mul::lemma_mul_is_commutative(modulus, number / modulus);
    }
    vstd::arithmetic::div_mod::lemma_mod_add_multiples_vanish(number - low, modulus);
    assert((number - (low - modulus)) % modulus == 0) by {
        assert(number - (low - modulus) == modulus + (number - low));
    }
    if -modulus <= 2 * number < modulus {
        if number >= 0 {
            vstd::arithmetic::div_mod::lemma_small_mod(number as nat, modulus as nat);
        } else {
            vstd::arithmetic::div_mod::lemma_small_mod((number + modulus) as nat, modulus as nat);
            vstd::arithmetic::div_mod::lemma_mod_add_multiples_vanish(number, modulus);
            assert(modulus + number == number + modulus);
        }
    }
}

/// The bits of a number that is not negative are those of the number, and of a negative one those
/// of the number above it by all that 128 bits hold.
pub proof fn law_bits_of_negative_numbers(number: i128)
    ensures
        number >= 0 ==> twos_complement(number as int) == number,
        number < 0 ==> twos_complement(number as int) == number + (u128::MAX + 1),
{
    let modulus: int = u128::MAX + 1;
    if number >= 0 {
        vstd::arithmetic::div_mod::lemma_small_mod(number as nat, modulus as nat);
    } else {
        vstd::arithmetic::div_mod::lemma_small_mod((number + modulus) as nat, modulus as nat);
        vstd::arithmetic::div_mod::lemma_mod_add_multiples_vanish(number as int, modulus);
        assert(modulus + number == number + modulus);
    }
}

/// Numbers that fit a pointer are kept as they are.
pub proof fn law_pointers_keep_what_fits(number: u64, signed: i64)
    ensures
        number <= usize::MAX ==> pointer_sized(number) == number,
        isize::MIN <= signed <= isize::MAX ==> signed_pointer_sized(signed) == signed,
{
    if usize::MAX == 0xffff_ffff {
        law_wrapped_into_range(signed as int, 0x1_0000_0000);
    }
}

} // verus!
