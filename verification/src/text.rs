//! Numbers as text, for names and messages.

use vstd::prelude::*;
use vstd::string::*;

verus! {

/// The character of one digit, up to base sixteen.
pub open spec fn digit_char(d: int) -> char {
    if d == 0 {
        '0'
    } else if d == 1 {
        '1'
    } else if d == 2 {
        '2'
    } else if d == 3 {
        '3'
    } else if d == 4 {
        '4'
    } else if d == 5 {
        '5'
    } else if d == 6 {
        '6'
    } else if d == 7 {
        '7'
    } else if d == 8 {
        '8'
    } else if d == 9 {
        '9'
    } else if d == 10 {
        'a'
    } else if d == 11 {
        'b'
    } else if d == 12 {
        'c'
    } else if d == 13 {
        'd'
    } else if d == 14 {
        'e'
    } else {
        'f'
    }
}

/// The decimal digits of `n`, the most significant first, without leading
/// zeros.
pub open spec fn decimal_digits(n: nat) -> Seq<char>
    decreases n,
{
    if n < 10 {
        seq![digit_char(n as int)]
    } else {
        decimal_digits(n / 10).push(digit_char((n % 10) as int))
    }
}

/// The hexadecimal digits of `n`, the most significant first, without
/// leading zeros.
pub open spec fn hex_digits(n: nat) -> Seq<char>
    decreases n,
{
    if n < 16 {
        seq![digit_char(n as int)]
    } else {
        hex_digits(n / 16).push(digit_char((n % 16) as int))
    }
}

/// `v` in decimal, with a minus sign where it is negative.
pub open spec fn decimal(v: int) -> Seq<char> {
    if v < 0 {
        seq!['-'] + decimal_digits((-v) as nat)
    } else {
        decimal_digits(v as nat)
    }
}

/// `u` in hexadecimal, in at least two digits.
pub open spec fn hex(u: nat) -> Seq<char> {
    if u < 0x10 {
        seq!['0'] + hex_digits(u)
    } else {
        hex_digits(u)
    }
}

fn digit_str(d: u32) -> (r: &'static str)
    requires
        d < 16,
    ensures
        r@ == seq![digit_char(d as int)],
{
    proof {
        reveal_strlit("0");
        reveal_strlit("1");
        reveal_strlit("2");
        reveal_strlit("3");
        reveal_strlit("4");
        reveal_strlit("5");
        reveal_strlit("6");
        reveal_strlit("7");
        reveal_strlit("8");
        reveal_strlit("9");
        reveal_strlit("a");
        reveal_strlit("b");
        reveal_strlit("c");
        reveal_strlit("d");
        reveal_strlit("e");
        reveal_strlit("f");
    }
    let r = match d {
        0 => "0",
        1 => "1",
        2 => "2",
        3 => "3",
        4 => "4",
        5 => "5",
        6 => "6",
        7 => "7",
        8 => "8",
        9 => "9",
        10 => "a",
        11 => "b",
        12 => "c",
        13 => "d",
        14 => "e",
        _ => "f",
    };
    assert(r@ =~= seq![digit_char(d as int)]);
    r
}

fn decimal_digits_string(n: u32) -> (r: String)
    ensures
        r@ == decimal_digits(n as nat),
    decreases n,
{
    if n < 10 {
        String::from_str(digit_str(n))
    } else {
        let mut out = decimal_digits_string(n / 10);
        out.append(digit_str(n % 10));
        proof {
            assert(out@ =~= decimal_digits(n as nat));
        }
        out
    }
}

fn hex_digits_string(n: u32) -> (r: String)
    ensures
        r@ == hex_digits(n as nat),
    decreases n,
{
    if n < 16 {
        String::from_str(digit_str(n))
    } else {
        let mut out = hex_digits_string(n / 16);
        out.append(digit_str(n % 16));
        proof {
            assert(out@ =~= hex_digits(n as nat));
        }
        out
    }
}

/// `v` in decimal.
pub fn decimal_string(v: i32) -> (r: String)
    ensures
        r@ == decimal(v as int),
{
    if v < 0 {
        let magnitude: u32 = (-(v as i64)) as u32;
        let out = String::from_str("-");
        let body = decimal_digits_string(magnitude);
        let out = out.concat(body.as_str());
        proof {
            reveal_strlit("-");
            assert(out@ =~= decimal(v as int));
        }
        out
    } else {
        decimal_digits_string(v as u32)
    }
}

/// `u` in hexadecimal, in at least two digits.
pub fn hex_string(u: u32) -> (r: String)
    ensures
        r@ == hex(u as nat),
{
    if u < 0x10 {
        let out = String::from_str("0");
        let body = hex_digits_string(u);
        let out = out.concat(body.as_str());
        proof {
            reveal_strlit("0");
            assert(out@ =~= hex(u as nat));
        }
        out
    } else {
        hex_digits_string(u)
    }
}

} // verus!
