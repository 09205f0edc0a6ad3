//! Numbers as text.

use vstd::prelude::*;
use vstd::string::StringExecFns;

verus! {

/// The character of a digit.
pub open spec fn digit(value: nat) -> char {
    (48 + value) as char
}

/// A number in decimal digits.
pub open spec fn numeral(number: nat) -> Seq<char>
    decreases number,
{
    if number < 10 {
        seq![digit(number)]
    } else {
        numeral(number / 10).push(digit(number % 10))
    }
}

/// A digit as text.
fn digit_text(value: u128) -> (result: &'static str)
    requires
        value < 10,
    ensures
        result@ == seq![digit(value as nat)],
{
    proof {
        reveal_strlit("0");
        reveal_strlit("1");
        reveal_strlit("2");
        reveal_strlit("3");
        reveal_strlit("4");
        reveal_strlit("5");
        reveal_strlit("6");
        reveal_strlit("7");
        reveal_strlit("8");
        reveal_strlit("9");
    }
    let result = if value == 0 {
        "0"
    } else if value == 1 {
        "1"
    } else if value == 2 {
        "2"
    } else if value == 3 {
        "3"
    } else if value == 4 {
        "4"
    } else if value == 5 {
        "5"
    } else if value == 6 {
        "6"
    } else if value == 7 {
        "7"
    } else if value == 8 {
        "8"
    } else {
        "9"
    };
    assert(result@ =~= seq![digit(value as nat)]);
    result
}

/// A number in decimal digits.
pub fn number_text(number: u128) -> (result: String)
    ensures
        result@ == numeral(number as nat),
    decreases number,
{
    let mut text = if number < 10 {
        String::new()
    } else {
        number_text(number / 10)
    };
    text.append(digit_text(number % 10));
    assert(text@ =~= numeral(number as nat));
    text
}

/// A number behind a word that says what it counts.
pub fn label(word: &str, number: u128) -> (result: String)
    ensures
        result@ == word@ + numeral(number as nat),
{
    let mut text = word.to_owned();
    text.append(number_text(number).as_str());
    text
}

/// Different numbers have different numerals.
pub proof fn law_numerals_tell_numbers_apart(a: nat, b: nat)
    requires
        numeral(a) == numeral(b),
    ensures
        a == b,
    decreases a,
{
    lemma_numeral(a);
    lemma_numeral(b);
    if a >= 10 && b >= 10 {
        let (x, y) = (numeral(a / 10), numeral(b / 10));
        assert(numeral(a).drop_last() =~= x);
        assert(numeral(b).drop_last() =~= y);
        law_numerals_tell_numbers_apart(a / 10, b / 10);
        assert(numeral(a).last() == digit(a % 10));
        assert(numeral(b).last() == digit(b % 10));
        assert(digit(a % 10) as int == 48 + a % 10);
        assert(digit(b % 10) as int == 48 + b % 10);
    } else if a < 10 && b < 10 {
        assert(numeral(a)[0] == digit(a));
        assert(numeral(b)[0] == digit(b));
        assert(digit(a) as int == 48 + a);
        assert(digit(b) as int == 48 + b);
    }
}

proof fn lemma_numeral(number: nat)
    ensures
        number < 10 ==> numeral(number).len() == 1,
        number >= 10 ==> numeral(number).len() >= 2,
    decreases number,
{
    if number >= 10 {
        lemma_numeral(number / 10);
    }
}

/// A numeral is its number in decimal digits, the most significant first and without leading
/// zeros.
pub proof fn law_decimal_digits(number: nat, last: nat)
    requires
        last < 10,
    ensures
        numeral(last) == seq![digit(last)],
        number > 0 ==> numeral(10 * number + last) == numeral(number).push(digit(last)),
        number > 0 ==> numeral(number)[0] != '0',
        digit(0) == '0',
        digit(1) == '1',
        digit(9) == '9',
        last > 0 ==> digit(last) as int == digit((last - 1) as nat) as int + 1,
    decreases number,
{
    if number >= 10 {
        law_decimal_digits(number / 10, last);
    }
    assert((10 * number + last) / 10 == number);
    assert((10 * number + last) % 10 == last);
}

} // verus!
