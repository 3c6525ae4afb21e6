//! Small verified text helpers shared across the crate: building a string
//! from one character, and rendering a number in decimal.

use vstd::prelude::*;
use vstd::string::StringExecFns;

verus! {

/// Relies on `String::from` for `char`: the returned string holds exactly
/// the one given character.
#[verifier::external_body]
pub(crate) fn char_to_string(c: char) -> (r: String)
    ensures
        r@ == seq![c],
{
    String::from(c)
}

/// The character for one decimal digit.
pub open spec fn digit_char(d: nat) -> char {
    if d == 0 {
        '0'
    } else if d == 1 {
        '1'
    } else if d == 2 {
        '2'
    } else if d == 3 {
        '3'
    } else if d == 4 {
        '4'
    } else if d == 5 {
        '5'
    } else if d == 6 {
        '6'
    } else if d == 7 {
        '7'
    } else if d == 8 {
        '8'
    } else {
        '9'
    }
}

/// The decimal rendering of a number, most significant digit first.
pub open spec fn dec_str(n: nat) -> Seq<char>
    decreases n,
{
    if n < 10 {
        seq![digit_char(n)]
    } else {
        dec_str(n / 10).push(digit_char(n % 10))
    }
}

/// Renders a number in decimal.
pub fn u32_to_string(x: u32) -> (r: String)
    ensures
        r@ == dec_str(x as nat),
    decreases x,
{
    let d = x % 10;
    let c = if d == 0 {
        '0'
    } else if d == 1 {
        '1'
    } else if d == 2 {
        '2'
    } else if d == 3 {
        '3'
    } else if d == 4 {
        '4'
    } else if d == 5 {
        '5'
    } else if d == 6 {
        '6'
    } else if d == 7 {
        '7'
    } else if d == 8 {
        '8'
    } else {
        '9'
    };
    proof {
        assert(c == digit_char(d as nat));
    }
    let tail = char_to_string(c);
    if x < 10 {
        tail
    } else {
        let mut s = u32_to_string(x / 10);
        s.append(tail.as_str());
        proof {
            assert(s@ =~= dec_str((x / 10) as nat).push(digit_char((x % 10) as nat)));
        }
        s
    }
}

} // verus!
