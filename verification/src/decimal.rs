//! Decimal rendering of signed 32-bit values, used for the `name = value`
//! lines that `write` statements emit.

use vstd::prelude::*;

verus! {

/// The character for the decimal digit `d`.
pub open spec fn digit_char(d: int) -> char {
    if d == 0 { '0' } else if d == 1 { '1' } else if d == 2 { '2' }
    else if d == 3 { '3' } else if d == 4 { '4' } else if d == 5 { '5' }
    else if d == 6 { '6' } else if d == 7 { '7' } else if d == 8 { '8' }
    else { '9' }
}

/// The decimal digits of a non-negative value, most significant first.
pub open spec fn dec_digits(n: int) -> Seq<char>
    decreases n,
{
    if n < 10 {
        seq![digit_char(n)]
    } else {
        dec_digits(n / 10) + seq![digit_char(n % 10)]
    }
}

/// The decimal rendering of a value, with a leading minus sign when it is
/// negative.
pub open spec fn int_chars(v: int) -> Seq<char> {
    if v < 0 {
        seq!['-'] + dec_digits(-v)
    } else {
        dec_digits(v)
    }
}

/// Appends the character of one decimal digit.
fn push_digit(s: &mut String, d: u32)
    requires
        d < 10,
    ensures
        final(s)@ == old(s)@ + seq![digit_char(d as int)],
{
    if d == 0 { s.append("0"); proof { reveal_strlit("0"); assert(final(s)@ =~= old(s)@ + seq![digit_char(d as int)]); } }
    else if d == 1 { s.append("1"); proof { reveal_strlit("1"); assert(final(s)@ =~= old(s)@ + seq![digit_char(d as int)]); } }
    else if d == 2 { s.append("2"); proof { reveal_strlit("2"); assert(final(s)@ =~= old(s)@ + seq![digit_char(d as int)]); } }
    else if d == 3 { s.append("3"); proof { reveal_strlit("3"); assert(final(s)@ =~= old(s)@ + seq![digit_char(d as int)]); } }
    else if d == 4 { s.append("4"); proof { reveal_strlit("4"); assert(final(s)@ =~= old(s)@ + seq![digit_char(d as int)]); } }
    else if d == 5 { s.append("5"); proof { reveal_strlit("5"); assert(final(s)@ =~= old(s)@ + seq![digit_char(d as int)]); } }
    else if d == 6 { s.append("6"); proof { reveal_strlit("6"); assert(final(s)@ =~= old(s)@ + seq![digit_char(d as int)]); } }
    else if d == 7 { s.append("7"); proof { reveal_strlit("7"); assert(final(s)@ =~= old(s)@ + seq![digit_char(d as int)]); } }
    else if d == 8 { s.append("8"); proof { reveal_strlit("8"); assert(final(s)@ =~= old(s)@ + seq![digit_char(d as int)]); } }
    else { s.append("9"); proof { reveal_strlit("9"); assert(final(s)@ =~= old(s)@ + seq![digit_char(d as int)]); } }
}

/// Appends the decimal digits of `n`, most significant first.
fn push_decimal(s: &mut String, n: u32)
    ensures
        final(s)@ == old(s)@ + dec_digits(n as int),
    decreases n,
{
    if n >= 10 {
        push_decimal(s, n / 10);
    }
    push_digit(s, n % 10);
    proof {
        assert(final(s)@ =~= old(s)@ + dec_digits(n as int));
    }
}

/// Renders a signed 32-bit value in decimal, as `write` prints it.
pub fn int_to_string(v: i32) -> (s: String)
    ensures
        s@ == int_chars(v as int),
{
    let mut s = String::new();
    if v < 0 {
        s.append("-");
        let mag: u32 = (-(v as i64)) as u32;
        push_decimal(&mut s, mag);
        proof {
            reveal_strlit("-");
            assert(s@ =~= int_chars(v as int));
        }
    } else {
        push_decimal(&mut s, v as u32);
        proof {
            assert(s@ =~= int_chars(v as int));
        }
    }
    s
}

} // verus!
