//! Decimal rendering of 64-bit integers, used where a long value leaves the
//! range that JSON consumers represent exactly and must travel as text.

use vstd::prelude::*;

verus! {

/// The decimal digit character for `d`.
pub open spec fn digit_char(d: int) -> char {
    if d == 0 {
        '0'
    } else if d == 1 {
        '1'
    } else if d == 2 {
        '2'
    } else if d == 3 {
        '3'
    } else if d == 4 {
        '4'
    } else if d == 5 {
        '5'
    } else if d == 6 {
        '6'
    } else if d == 7 {
        '7'
    } else if d == 8 {
        '8'
    } else {
        '9'
    }
}

/// The decimal digit string of an unsigned value, most significant digit
/// first, with no leading zeros except for the value zero itself.
pub open spec fn u64_dec_chars(n: nat) -> Seq<char>
    decreases n,
{
    if n < 10 {
        seq![digit_char(n as int)]
    } else {
        u64_dec_chars(n / 10) + seq![digit_char((n % 10) as int)]
    }
}

/// The decimal digit string of a signed value: a minus sign before the
/// digits of its magnitude when negative.
pub open spec fn i64_dec_chars(v: i64) -> Seq<char> {
    if v >= 0 {
        u64_dec_chars(v as nat)
    } else {
        seq!['-'] + u64_dec_chars((-(v as int)) as nat)
    }
}

fn digit_str(d: u64) -> (r: &'static str)
    requires
        d < 10,
    ensures
        r@ == seq![digit_char(d as int)],
{
    proof {
        reveal_strlit("0");
        reveal_strlit("1");
        reveal_strlit("2");
        reveal_strlit("3");
        reveal_strlit("4");
        reveal_strlit("5");
        reveal_strlit("6");
        reveal_strlit("7");
        reveal_strlit("8");
        reveal_strlit("9");
    }
    let r: &'static str = match d {
        0 => "0",
        1 => "1",
        2 => "2",
        3 => "3",
        4 => "4",
        5 => "5",
        6 => "6",
        7 => "7",
        8 => "8",
        _ => "9",
    };
    proof {
        assert(r@ =~= seq![digit_char(d as int)]);
    }
    r
}

/// Render an unsigned value in decimal.
pub fn u64_to_dec(n: u64) -> (r: String)
    ensures
        r@ == u64_dec_chars(n as nat),
    decreases n,
{
    if n < 10 {
        digit_str(n).to_owned()
    } else {
        let mut s = u64_to_dec(n / 10);
        s.append(digit_str(n % 10));
        s
    }
}

/// Render a signed value in decimal.
pub fn i64_to_dec(v: i64) -> (r: String)
    ensures
        r@ == i64_dec_chars(v),
{
    if v >= 0 {
        u64_to_dec(v as u64)
    } else {
        let m: i128 = -(v as i128);
        let mut s = "-".to_owned();
        s.append(u64_to_dec(m as u64).as_str());
        proof {
            reveal_strlit("-");
            assert(s@ =~= i64_dec_chars(v));
        }
        s
    }
}

} // verus!
