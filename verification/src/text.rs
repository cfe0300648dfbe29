//! Numbers as text, for what the library says of cells and dominoes.

use vstd::prelude::*;
use vstd::string::StringExecFns;

verus! {

/// The ten digits.
pub open spec fn digits() -> Seq<char> {
    seq!['0', '1', '2', '3', '4', '5', '6', '7', '8', '9']
}

/// The number in decimal digits, without leading zeros.
pub open spec fn decimal(number: nat) -> Seq<char>
    decreases number,
{
    if number < 10 {
        seq![digits()[number as int]]
    } else {
        decimal(number / 10).push(digits()[(number % 10) as int])
    }
}

/// The digit as text.
fn digit_text(digit: u8) -> (text: &'static str)
    requires
        digit < 10,
    ensures
        text@ == seq![digits()[digit as int]],
{
    proof {
        reveal_strlit("0");
        reveal_strlit("1");
        reveal_strlit("2");
        reveal_strlit("3");
        reveal_strlit("4");
        reveal_strlit("5");
        reveal_strlit("6");
        reveal_strlit("7");
        reveal_strlit("8");
        reveal_strlit("9");
    }
    let text = match digit {
        0 => "0",
        1 => "1",
        2 => "2",
        3 => "3",
        4 => "4",
        5 => "5",
        6 => "6",
        7 => "7",
        8 => "8",
        _ => "9",
    };
    proof {
        assert(text@ =~= seq![digits()[digit as int]]);
    }
    text
}

/// Writes the number in decimal digits at the end of the text.
pub fn append_decimal(text: &mut String, number: u8)
    ensures
        final(text)@ == old(text)@ + decimal(number as nat),
{
    proof {
        reveal_with_fuel(decimal, 3);
    }
    if number >= 100 {
        text.append(digit_text(number / 100));
    }
    if number >= 10 {
        text.append(digit_text(number / 10 % 10));
    }
    text.append(digit_text(number % 10));
    proof {
        assert(text@ =~= old(text)@ + decimal(number as nat));
    }
}

} // verus!
