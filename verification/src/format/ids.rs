//! The identifiers of vehicles: the identifier of the type, an underscore,
//! and the number of the vehicle within its type.

use vstd::prelude::*;
use vstd::string::StringExecFns;

verus! {

/// The character of a digit.
pub open spec fn spec_digit(digit: int) -> char {
    if digit == 0 {
        '0'
    } else if digit == 1 {
        '1'
    } else if digit == 2 {
        '2'
    } else if digit == 3 {
        '3'
    } else if digit == 4 {
        '4'
    } else if digit == 5 {
        '5'
    } else if digit == 6 {
        '6'
    } else if digit == 7 {
        '7'
    } else if digit == 8 {
        '8'
    } else {
        '9'
    }
}

/// A number as it is written with decimal digits.
pub open spec fn spec_decimal(number: nat) -> Seq<char>
    decreases number,
{
    if number < 10 {
        seq![spec_digit(number as int)]
    } else {
        spec_decimal(number / 10).push(spec_digit((number % 10) as int))
    }
}

/// The identifier of the vehicle with the given number within its type.
pub open spec fn spec_vehicle_id(type_id: Seq<char>, number: nat) -> Seq<char> {
    type_id + seq!['_'] + spec_decimal(number)
}

/// The text of a digit.
fn digit_text(digit: usize) -> (text: &'static str)
    requires
        digit < 10,
    ensures
        text@ == seq![spec_digit(digit as int)],
{
    proof {
        reveal_strlit("0");
        reveal_strlit("1");
        reveal_strlit("2");
        reveal_strlit("3");
        reveal_strlit("4");
        reveal_strlit("5");
        reveal_strlit("6");
        reveal_strlit("7");
        reveal_strlit("8");
        reveal_strlit("9");
    }
    let text: &'static str = if digit == 0 {
        "0"
    } else if digit == 1 {
        "1"
    } else if digit == 2 {
        "2"
    } else if digit == 3 {
        "3"
    } else if digit == 4 {
        "4"
    } else if digit == 5 {
        "5"
    } else if digit == 6 {
        "6"
    } else if digit == 7 {
        "7"
    } else if digit == 8 {
        "8"
    } else {
        "9"
    };
    assert(text@ =~= seq![spec_digit(digit as int)]);
    text
}

/// Writes a number with decimal digits behind a text.
pub fn append_decimal(text: &mut String, number: usize)
    ensures
        final(text)@ == old(text)@ + spec_decimal(number as nat),
    decreases number,
{
    if number < 10 {
        text.append(digit_text(number));
    } else {
        append_decimal(text, number / 10);
        text.append(digit_text(number % 10));
        assert(text@ =~= old(text)@ + spec_decimal(number as nat));
    }
}

/// The identifier of the vehicle with the given number within its type.
pub fn vehicle_id(type_id: &String, number: usize) -> (id: String)
    ensures
        id@ == spec_vehicle_id(type_id@, number as nat),
{
    let mut id = type_id.clone();
    proof {
        reveal_strlit("_");
    }
    id.append("_");
    append_decimal(&mut id, number);
    assert(id@ =~= spec_vehicle_id(type_id@, number as nat));
    id
}

} // verus!
